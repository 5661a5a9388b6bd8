//! Inline formatting of a text input: `**bold**`, `*italic*`,
//! `_underline_` and `` `code` ``.
use vstd::prelude::*;

use core::ops::Range;

use crate::text::{char_count_bound, chars_of, find_from, find_seq, lemma_find_from};

verus! {

/// Kind of an inline span.
#[derive(Debug, Clone, Copy, PartialEq, Eq, Structural)]
pub enum InlineFormat {
    Bold,
    Italic,
    Underline,
    Code,
}

/// A formatted run: `range` (character positions) starts at the opening
/// marker.
#[derive(Debug)]
pub struct InlineSpan {
    pub range: Range<usize>,
    pub format: InlineFormat,
}

impl Clone for InlineSpan {
    fn clone(&self) -> (r: Self)
        ensures
            r == *self,
    {
        InlineSpan { range: self.range.start..self.range.end, format: self.format }
    }
}

/// A span as (start, end, format).
pub open spec fn span_view(sp: InlineSpan) -> (int, int, InlineFormat) {
    (sp.range.start as int, sp.range.end as int, sp.format)
}

/// A list of spans as (start, end, format) triples.
pub open spec fn spans_view(v: Seq<InlineSpan>) -> Seq<(int, int, InlineFormat)> {
    v.map_values(|sp: InlineSpan| span_view(sp))
}

/// Width of the opening marker of a format.
pub open spec fn marker_width(f: InlineFormat) -> int {
    match f {
        InlineFormat::Bold => 2,
        _ => 1,
    }
}

/// The spans found by scanning `s` from `i`.  At a position with at least
/// three more characters after it, `**` followed later by `**` gives a bold
/// span whose range ends three past the start of that closing `**`; with
/// at least two more characters after it, a `*` not preceded by `*`, a `_`
/// or a `` ` `` followed later by the same character gives an italic,
/// underline or code span ending just after it.  Scanning resumes at the
/// end of a span, otherwise at the next position.
pub open spec fn spans_from(s: Seq<char>, i: int) -> Seq<(int, int, InlineFormat)>
    decreases s.len() + 1 - i,
{
    if i < 0 || i >= s.len() {
        seq![]
    } else if i + 3 < s.len() && s[i] == '*' && s[i + 1] == '*' && find_from(
        s,
        seq!['*', '*'],
        i + 2,
    ) is Some {
        let k = find_from(s, seq!['*', '*'], i + 2)->0;
        proof {
            lemma_find_from(s, seq!['*', '*'], i + 2);
        }
        seq![(i, k + 3, InlineFormat::Bold)] + spans_from(s, k + 3)
    } else if i + 2 < s.len() && s[i] == '*' && (i == 0 || s[i - 1] != '*') && find_from(
        s,
        seq!['*'],
        i + 1,
    ) is Some {
        let k = find_from(s, seq!['*'], i + 1)->0;
        proof {
            lemma_find_from(s, seq!['*'], i + 1);
        }
        seq![(i, k + 1, InlineFormat::Italic)] + spans_from(s, k + 1)
    } else if i + 2 < s.len() && s[i] == '_' && find_from(s, seq!['_'], i + 1) is Some {
        let k = find_from(s, seq!['_'], i + 1)->0;
        proof {
            lemma_find_from(s, seq!['_'], i + 1);
        }
        seq![(i, k + 1, InlineFormat::Underline)] + spans_from(s, k + 1)
    } else if i + 2 < s.len() && s[i] == '`' && find_from(s, seq!['`'], i + 1) is Some {
        let k = find_from(s, seq!['`'], i + 1)->0;
        proof {
            lemma_find_from(s, seq!['`'], i + 1);
        }
        seq![(i, k + 1, InlineFormat::Code)] + spans_from(s, k + 1)
    } else {
        spans_from(s, i + 1)
    }
}

/// The inline spans of a text.
pub open spec fn inline_spans(s: Seq<char>) -> Seq<(int, int, InlineFormat)> {
    spans_from(s, 0)
}

/// The spans `sp` lie in order from `lo` on; each has room for its markers,
/// and its inner text `[start + w, end - w)` lies inside `s`.
pub open spec fn spans_wf(s: Seq<char>, sp: Seq<(int, int, InlineFormat)>, lo: int) -> bool {
    &&& forall|j: int|
        0 <= j < sp.len() ==> lo <= (#[trigger] sp[j]).0 && sp[j].0 + 2 * marker_width(sp[j].2)
            <= sp[j].1 && sp[j].1 - marker_width(sp[j].2) <= s.len() && sp[j].1 <= s.len() + 1
    &&& forall|j: int, k: int| 0 <= j < k < sp.len() ==> (#[trigger] sp[j]).1 <= (#[trigger] sp[k]).0
}

proof fn lemma_prepend_wf(
    s: Seq<char>,
    head: (int, int, InlineFormat),
    rest: Seq<(int, int, InlineFormat)>,
    lo: int,
)
    requires
        spans_wf(s, rest, head.1),
        lo <= head.0,
        head.0 + 2 * marker_width(head.2) <= head.1,
        head.1 - marker_width(head.2) <= s.len(),
        head.1 <= s.len() + 1,
    ensures
        spans_wf(s, seq![head] + rest, lo),
{
    let all = seq![head] + rest;
    assert forall|j: int, k: int| 0 <= j < k < all.len() implies (#[trigger] all[j]).1 <= (
    #[trigger] all[k]).0 by {
        if j > 0 {
            assert(all[j] == rest[j - 1]);
        }
        assert(all[k] == rest[k - 1]);
    }
    assert forall|j: int| 0 <= j < all.len() implies lo <= (#[trigger] all[j]).0 && all[j].0 + 2
        * marker_width(all[j].2) <= all[j].1 && all[j].1 - marker_width(all[j].2) <= s.len()
        && all[j].1 <= s.len() + 1 by {
        if j > 0 {
            assert(all[j] == rest[j - 1]);
        }
    }
}

/// The spans found from `i` on are well formed.
pub proof fn lemma_spans_from_wf(s: Seq<char>, i: int)
    requires
        0 <= i,
    ensures
        spans_wf(s, spans_from(s, i), i),
    decreases s.len() + 1 - i,
{
    if i >= s.len() {
    } else if i + 3 < s.len() && s[i] == '*' && s[i + 1] == '*' && find_from(
        s,
        seq!['*', '*'],
        i + 2,
    ) is Some {
        let k = find_from(s, seq!['*', '*'], i + 2)->0;
        lemma_find_from(s, seq!['*', '*'], i + 2);
        lemma_spans_from_wf(s, k + 3);
        lemma_prepend_wf(s, (i, k + 3, InlineFormat::Bold), spans_from(s, k + 3), i);
    } else if i + 2 < s.len() && s[i] == '*' && (i == 0 || s[i - 1] != '*') && find_from(
        s,
        seq!['*'],
        i + 1,
    ) is Some {
        let k = find_from(s, seq!['*'], i + 1)->0;
        lemma_find_from(s, seq!['*'], i + 1);
        lemma_spans_from_wf(s, k + 1);
        lemma_prepend_wf(s, (i, k + 1, InlineFormat::Italic), spans_from(s, k + 1), i);
    } else if i + 2 < s.len() && s[i] == '_' && find_from(s, seq!['_'], i + 1) is Some {
        let k = find_from(s, seq!['_'], i + 1)->0;
        lemma_find_from(s, seq!['_'], i + 1);
        lemma_spans_from_wf(s, k + 1);
        lemma_prepend_wf(s, (i, k + 1, InlineFormat::Underline), spans_from(s, k + 1), i);
    } else if i + 2 < s.len() && s[i] == '`' && find_from(s, seq!['`'], i + 1) is Some {
        let k = find_from(s, seq!['`'], i + 1)->0;
        lemma_find_from(s, seq!['`'], i + 1);
        lemma_spans_from_wf(s, k + 1);
        lemma_prepend_wf(s, (i, k + 1, InlineFormat::Code), spans_from(s, k + 1), i);
    } else {
        lemma_spans_from_wf(s, i + 1);
    }
}

/// The index of the last character of the first occurrence of `marker`
/// at or after `start`.
fn find_closing(chars: &[char], start: usize, marker: &[char]) -> (r: Option<usize>)
    requires
        marker@.len() >= 1,
    ensures
        r matches Some(e) ==> find_from(chars@, marker@, start as int) matches Some(k) && e == k
            + marker@.len() - 1,
        r is None ==> find_from(chars@, marker@, start as int) is None,
{
    proof {
        lemma_find_from(chars@, marker@, start as int);
    }
    match find_seq(chars, marker, start) {
        Some(k) => {
            assert(k + marker@.len() <= chars@.len());
            let n = chars.len();
            let m = marker.len();
            assert(k + (m - 1) < n);
            Some(k + (m - 1))
        },
        None => None,
    }
}

/// The inline spans of `text` (see `spans_from`), in order.
pub fn parse_inline_formatting(text: &str) -> (spans: Vec<InlineSpan>)
    ensures
        spans_view(spans@) == inline_spans(text@),
{
    char_count_bound(text);
    let chars = chars_of(text);
    let mut spans: Vec<InlineSpan> = Vec::new();
    let mut i: usize = 0;
    let ghost s = chars@;
    let dstar = vec!['*', '*'];
    let star = vec!['*'];
    let under = vec!['_'];
    let tick = vec!['`'];
    assert(dstar@ == seq!['*', '*']);
    assert(star@ == seq!['*']);
    assert(under@ == seq!['_']);
    assert(tick@ == seq!['`']);
    while i < chars.len()
        invariant
            s == chars@,
            s == text@,
            s.len() <= isize::MAX,
            dstar@ == seq!['*', '*'],
            star@ == seq!['*'],
            under@ == seq!['_'],
            tick@ == seq!['`'],
            i <= s.len() + 1,
            inline_spans(s) == spans_view(spans@) + spans_from(s, i as int),
        decreases s.len() + 1 - i,
    {
        let ghost old_spans = spans@;
        if i + 3 < chars.len() && chars[i] == '*' && chars[i + 1] == '*' {
            if let Some(end) = find_closing(&chars, i + 2, &dstar) {
                proof {
                    lemma_find_from(s, seq!['*', '*'], i + 2);
                }
                spans.push(InlineSpan { range: i..end + 2, format: InlineFormat::Bold });
                assert(spans_view(spans@) =~= spans_view(old_spans) + seq![
                    (i as int, end + 2, InlineFormat::Bold),
                ]);
                i = end + 2;
                continue;
            }
        }
        if i + 2 < chars.len() && chars[i] == '*' && (i == 0 || chars[i - 1] != '*') {
            if let Some(end) = find_closing(&chars, i + 1, &star) {
                proof {
                    lemma_find_from(s, seq!['*'], i + 1);
                }
                spans.push(InlineSpan { range: i..end + 1, format: InlineFormat::Italic });
                assert(spans_view(spans@) =~= spans_view(old_spans) + seq![
                    (i as int, end + 1, InlineFormat::Italic),
                ]);
                i = end + 1;
                continue;
            }
        }
        if i + 2 < chars.len() && chars[i] == '_' {
            if let Some(end) = find_closing(&chars, i + 1, &under) {
                proof {
                    lemma_find_from(s, seq!['_'], i + 1);
                }
                spans.push(InlineSpan { range: i..end + 1, format: InlineFormat::Underline });
                assert(spans_view(spans@) =~= spans_view(old_spans) + seq![
                    (i as int, end + 1, InlineFormat::Underline),
                ]);
                i = end + 1;
                continue;
            }
        }
        if i + 2 < chars.len() && chars[i] == '`' {
            if let Some(end) = find_closing(&chars, i + 1, &tick) {
                proof {
                    lemma_find_from(s, seq!['`'], i + 1);
                }
                spans.push(InlineSpan { range: i..end + 1, format: InlineFormat::Code });
                assert(spans_view(spans@) =~= spans_view(old_spans) + seq![
                    (i as int, end + 1, InlineFormat::Code),
                ]);
                i = end + 1;
                continue;
            }
        }
        i = i + 1;
    }
    assert(spans_view(spans@) + spans_from(s, i as int) =~= spans_view(spans@));
    spans
}

} // verus!
