//! Toggling inline Markdown markers around the cursor.
use vstd::prelude::*;

use crate::markdown::inline::{
    inline_spans, lemma_spans_from_wf, marker_width, parse_inline_formatting, span_view,
    spans_from, spans_view, spans_wf, InlineFormat, InlineSpan,
};
use crate::text::{
    byte_slice, byte_to_char, char_count_bound, chars_of, find_from, is_ascii_text, is_boundary,
    lemma_ascii_utf8_len, lemma_char_pos_mono, lemma_find_from,
    lemma_ends_are_boundaries, lemma_utf8_len_ge, push_byte_slice, push_str, str_byte_len, utf8_len,
};

verus! {

/// Toggles `**`, `*` and `` ` `` markers in a line.
#[derive(Debug)]
pub struct InlineFormatter;

/// The marker text of a format.
pub open spec fn marker_of(f: InlineFormat) -> Seq<char> {
    match f {
        InlineFormat::Bold => seq!['*', '*'],
        InlineFormat::Italic => seq!['*'],
        InlineFormat::Code => seq!['`'],
    }
}

/// The first span of `sp` with format `f` whose range holds the cursor `c`
/// (both ends included).
pub open spec fn first_covering(sp: Seq<(int, int, InlineFormat)>, f: InlineFormat, c: int) -> Option<
    (int, int, InlineFormat),
>
    decreases sp.len(),
{
    if sp.len() == 0 {
        None
    } else if sp[0].2 == f && sp[0].0 <= c <= sp[0].1 {
        Some(sp[0])
    } else {
        first_covering(sp.subrange(1, sp.len() as int), f, c)
    }
}

/// What toggling format `f` at cursor `c` of line `t` gives.  The span
/// positions are character positions, and like the cursor they are taken
/// as byte offsets into the line: when a span of `f` holds the cursor its
/// markers are cut out and the cursor moves back by a marker's width;
/// otherwise a pair of markers is put at the cursor and the cursor moves in
/// between.
pub open spec fn toggled(t: Seq<char>, c: int, f: InlineFormat) -> (Seq<char>, int) {
    let w = marker_width(f);
    let n = utf8_len(t) as int;
    match first_covering(inline_spans(t), f, c) {
        Some(sp) => (
            byte_slice(t, 0, sp.0) + byte_slice(t, sp.0 + w, sp.1 - w) + byte_slice(t, sp.1, n),
            c - w,
        ),
        None => (byte_slice(t, 0, c) + marker_of(f) + marker_of(f) + byte_slice(t, c, n), c + w),
    }
}

/// The cursor positions at which toggling is defined: every byte offset
/// the line is cut at lies on a character boundary, and inside a span the
/// cursor is at least a marker's width from the line start.
pub open spec fn toggle_allowed(t: Seq<char>, c: int, f: InlineFormat) -> bool {
    let w = marker_width(f);
    match first_covering(inline_spans(t), f, c) {
        Some(sp) => c >= w && is_boundary(t, sp.0) && is_boundary(t, sp.0 + w) && is_boundary(
            t,
            sp.1 - w,
        ) && is_boundary(t, sp.1),
        None => is_boundary(t, c),
    }
}

/// A found span is one of the well-formed spans of `sp`.
proof fn lemma_first_covering_in(
    t: Seq<char>,
    sp: Seq<(int, int, InlineFormat)>,
    f: InlineFormat,
    c: int,
)
    requires
        spans_wf(t, sp, 0),
    ensures
        first_covering(sp, f, c) matches Some(x) ==> x.2 == f && x.0 <= c <= x.1 && 0 <= x.0 && x.0
            + 2 * marker_width(x.2) <= x.1 <= t.len(),
    decreases sp.len(),
{
    if sp.len() > 0 {
        let rest = sp.subrange(1, sp.len() as int);
        assert forall|j: int| 0 <= j < rest.len() implies 0 <= (#[trigger] rest[j]).0 && rest[j].0
            + 2 * marker_width(rest[j].2) <= rest[j].1 <= t.len() by {
            assert(rest[j] == sp[j + 1]);
        }
        assert forall|j: int, k: int| 0 <= j < k < rest.len() implies (#[trigger] rest[j]).1 <= (
        #[trigger] rest[k]).0 by {
            assert(rest[j] == sp[j + 1]);
            assert(rest[k] == sp[k + 1]);
        }
        lemma_first_covering_in(t, rest, f, c);
    }
}

impl InlineFormatter {
    /// Toggles bold (`**`) at the cursor.
    pub fn toggle_bold(text: &str, cursor_pos: usize) -> (r: (String, usize))
        requires
            toggle_allowed(text@, cursor_pos as int, InlineFormat::Bold),
        ensures
            (r.0@, r.1 as int) == toggled(text@, cursor_pos as int, InlineFormat::Bold),
    {
        Self::toggle_format(text, cursor_pos, InlineFormat::Bold)
    }

    /// Toggles italic (`*`) at the cursor.
    pub fn toggle_italic(text: &str, cursor_pos: usize) -> (r: (String, usize))
        requires
            toggle_allowed(text@, cursor_pos as int, InlineFormat::Italic),
        ensures
            (r.0@, r.1 as int) == toggled(text@, cursor_pos as int, InlineFormat::Italic),
    {
        Self::toggle_format(text, cursor_pos, InlineFormat::Italic)
    }

    /// Toggles code (`` ` ``) at the cursor.
    pub fn toggle_code(text: &str, cursor_pos: usize) -> (r: (String, usize))
        requires
            toggle_allowed(text@, cursor_pos as int, InlineFormat::Code),
        ensures
            (r.0@, r.1 as int) == toggled(text@, cursor_pos as int, InlineFormat::Code),
    {
        Self::toggle_format(text, cursor_pos, InlineFormat::Code)
    }

    /// Whether toggling `format` at `cursor_pos` of `text` is defined (see
    /// `toggle_allowed`).
    pub fn can_toggle(text: &str, cursor_pos: usize, format: InlineFormat) -> (b: bool)
        ensures
            b == toggle_allowed(text@, cursor_pos as int, format),
    {
        let spans = parse_inline_formatting(text);
        let chars = chars_of(text);
        let _n = str_byte_len(text);
        let ghost sv = spans_view(spans@);
        let ghost c = cursor_pos as int;
        proof {
            lemma_spans_from_wf(text@, 0);
            lemma_utf8_len_ge(text@);
        }
        let w: usize = match format {
            InlineFormat::Bold => 2,
            _ => 1,
        };
        let mut i: usize = 0;
        assert(sv.subrange(0, sv.len() as int) =~= sv);
        while i < spans.len()
            invariant
                i <= spans@.len(),
                w == marker_width(format),
                c == cursor_pos as int,
                chars@ == text@,
                utf8_len(text@) <= isize::MAX,
                text@.len() <= utf8_len(text@),
                sv == spans_view(spans@),
                sv == inline_spans(text@),
                spans_wf(text@, sv, 0),
                first_covering(sv, format, c) == first_covering(
                    sv.subrange(i as int, sv.len() as int),
                    format,
                    c,
                ),
            decreases spans@.len() - i,
        {
            let ghost rest = sv.subrange(i as int, sv.len() as int);
            assert(rest[0] == sv[i as int]);
            assert(rest.subrange(1, rest.len() as int) =~= sv.subrange(i + 1, sv.len() as int));
            let sp: &InlineSpan = &spans[i];
            assert(sv[i as int] == span_view(spans@[i as int]));
            if sp.format == format && sp.range.start <= cursor_pos && cursor_pos <= sp.range.end {
                let start = sp.range.start;
                let end = sp.range.end;
                return cursor_pos >= w && byte_to_char(&chars, start).is_some() && byte_to_char(
                    &chars,
                    start + w,
                ).is_some() && byte_to_char(&chars, end - w).is_some() && byte_to_char(
                    &chars,
                    end,
                ).is_some();
            }
            i = i + 1;
        }
        assert(sv.subrange(i as int, sv.len() as int).len() == 0);
        byte_to_char(&chars, cursor_pos).is_some()
    }

    fn push_marker(s: &mut String, f: InlineFormat)
        ensures
            final(s)@ == old(s)@ + marker_of(f),
    {
        match f {
            InlineFormat::Bold => push_str(s, "**"),
            InlineFormat::Italic => push_str(s, "*"),
            InlineFormat::Code => push_str(s, "`"),
        }
        assert(final(s)@ =~= old(s)@ + marker_of(f)) by {
            reveal_strlit("**");
            reveal_strlit("*");
            reveal_strlit("`");
        }
    }

    fn toggle_format(text: &str, cursor_pos: usize, format_type: InlineFormat) -> (r: (
        String,
        usize,
    ))
        requires
            toggle_allowed(text@, cursor_pos as int, format_type),
        ensures
            (r.0@, r.1 as int) == toggled(text@, cursor_pos as int, format_type),
    {
        let spans = parse_inline_formatting(text);
        let chars = chars_of(text);
        let n = str_byte_len(text);
        let ghost sv = spans_view(spans@);
        let ghost c = cursor_pos as int;
        proof {
            lemma_spans_from_wf(text@, 0);
            lemma_first_covering_in(text@, sv, format_type, c);
            lemma_utf8_len_ge(text@);
            lemma_ends_are_boundaries(text@);
        }
        let w: usize = match format_type {
            InlineFormat::Bold => 2,
            _ => 1,
        };
        let mut i: usize = 0;
        assert(sv.subrange(0, sv.len() as int) =~= sv);
        while i < spans.len()
            invariant
                i <= spans@.len(),
                w == marker_width(format_type),
                n == utf8_len(text@),
                n <= isize::MAX,
                text@.len() <= utf8_len(text@),
                is_boundary(text@, 0),
                is_boundary(text@, n as int),
                toggle_allowed(text@, c, format_type),
                c == cursor_pos as int,
                spans_wf(text@, sv, 0),
                sv == spans_view(spans@),
                sv == inline_spans(text@),
                chars@ == text@,
                first_covering(sv, format_type, c) == first_covering(
                    sv.subrange(i as int, sv.len() as int),
                    format_type,
                    c,
                ),
            decreases spans@.len() - i,
        {
            let ghost rest = sv.subrange(i as int, sv.len() as int);
            assert(rest[0] == sv[i as int]);
            assert(rest.subrange(1, rest.len() as int) =~= sv.subrange(i + 1, sv.len() as int));
            let sp: &InlineSpan = &spans[i];
            assert(sv[i as int] == span_view(spans@[i as int]));
            if sp.format == format_type && sp.range.start <= cursor_pos && cursor_pos
                <= sp.range.end {
                proof {
                    lemma_first_covering_in(text@, sv, format_type, c);
                }
                let start = sp.range.start;
                let end = sp.range.end;
                let mut r = String::new();
                push_byte_slice(&mut r, &chars, 0, start);
                push_byte_slice(&mut r, &chars, start + w, end - w);
                push_byte_slice(&mut r, &chars, end, n);
                return (r, cursor_pos - w);
            }
            i = i + 1;
        }
        assert(sv.subrange(i as int, sv.len() as int).len() == 0);
        proof {
            lemma_char_pos_mono(text@, 0, c);
            lemma_char_pos_mono(text@, c, n as int);
        }
        let mut r = String::new();
        push_byte_slice(&mut r, &chars, 0, cursor_pos);
        Self::push_marker(&mut r, format_type);
        Self::push_marker(&mut r, format_type);
        push_byte_slice(&mut r, &chars, cursor_pos, n);
        (r, cursor_pos + w)
    }

    /// `text` with `marker` put before and after the bytes `start..end`;
    /// `text` unchanged when the range is empty or runs past the end.
    pub fn wrap_selection(text: &str, start: usize, end: usize, marker: &str) -> (r: String)
        requires
            start < end <= utf8_len(text@) ==> is_boundary(text@, start as int) && is_boundary(
                text@,
                end as int,
            ),
        ensures
            r@ == if start >= end || end > utf8_len(text@) {
                text@
            } else {
                byte_slice(text@, 0, start as int) + marker@ + byte_slice(
                    text@,
                    start as int,
                    end as int,
                ) + marker@ + byte_slice(text@, end as int, utf8_len(text@) as int)
            },
    {
        let chars = chars_of(text);
        let n = str_byte_len(text);
        let mut r = String::new();
        if start >= end || end > n {
            push_str(&mut r, text);
            return r;
        }
        proof {
            lemma_ends_are_boundaries(text@);
        }
        push_byte_slice(&mut r, &chars, 0, start);
        push_str(&mut r, marker);
        push_byte_slice(&mut r, &chars, start, end);
        push_str(&mut r, marker);
        push_byte_slice(&mut r, &chars, end, n);
        r
    }
}


/// No `*` and no `` ` `` among `s[a..b]`.
pub open spec fn no_markers(s: Seq<char>, a: int, b: int) -> bool {
    forall|j: int| a <= j < b ==> #[trigger] s[j] != '*' && s[j] != '`'
}

/// Scanning over characters that are no markers finds nothing there.
proof fn lemma_spans_skip(s: Seq<char>, i: int, j: int)
    requires
        0 <= i <= j <= s.len(),
        no_markers(s, i, j),
    ensures
        spans_from(s, i) == spans_from(s, j),
    decreases j - i,
{
    if i < j {
        assert(s[i] != '*' && s[i] != '`');
        lemma_spans_skip(s, i + 1, j);
    }
}

/// Toggling italic twice at the same place, in an ASCII line without
/// markers, gives the line and the cursor back.
pub proof fn law_toggle_italic_twice(t: Seq<char>, c: int)
    requires
        is_ascii_text(t),
        no_markers(t, 0, t.len() as int),
        0 <= c <= t.len(),
    ensures
        toggle_allowed(t, c, InlineFormat::Italic),
        toggle_allowed(toggled(t, c, InlineFormat::Italic).0, toggled(t, c, InlineFormat::Italic).1, InlineFormat::Italic),
        toggled(toggled(t, c, InlineFormat::Italic).0, toggled(t, c, InlineFormat::Italic).1, InlineFormat::Italic) == (t, c),
{
    let n = t.len() as int;
    lemma_spans_skip(t, 0, n);
    assert(inline_spans(t) =~= Seq::<(int, int, InlineFormat)>::empty());
    lemma_ascii_utf8_len(t, c);
    lemma_ascii_utf8_len(t, n);
    assert(t.subrange(0, n) =~= t);
    lemma_ascii_utf8_len(t, 0);
    let t1 = t.subrange(0, c) + seq!['*'] + seq!['*'] + t.subrange(c, n);
    assert(toggled(t, c, InlineFormat::Italic).0 =~= t1);
    assert(toggled(t, c, InlineFormat::Italic).1 == c + 1);
    let n1 = t1.len() as int;
    assert forall|j: int| 0 <= j < n1 implies (#[trigger] t1[j] as u32) < 0x80 by {
        if j < c {
            assert(t1[j] == t[j]);
        } else if j >= c + 2 {
            assert(t1[j] == t[j - 2]);
        }
    }
    assert(no_markers(t1, 0, c)) by {
        assert forall|j: int| 0 <= j < c implies #[trigger] t1[j] != '*' && t1[j] != '`' by {
            assert(t1[j] == t[j]);
        }
    }
    assert(no_markers(t1, c + 2, n1)) by {
        assert forall|j: int| c + 2 <= j < n1 implies #[trigger] t1[j] != '*' && t1[j] != '`' by {
            assert(t1[j] == t[j - 2]);
        }
    }
    lemma_spans_skip(t1, 0, c);
    lemma_spans_skip(t1, c + 2, n1);
    lemma_find_from(t1, seq!['*', '*'], c + 2);
    if find_from(t1, seq!['*', '*'], c + 2) is Some {
        let k = find_from(t1, seq!['*', '*'], c + 2)->0;
        assert(t1.subrange(k, k + 2)[0] == t1[k]);
    }
    assert(t1.subrange(c + 1, c + 2) =~= seq!['*']);
    assert(find_from(t1, seq!['*'], c + 1) == Some(c + 1));
    assert(spans_from(t1, c) == seq![(c, c + 2, InlineFormat::Italic)] + spans_from(t1, c + 2));
    assert(spans_from(t1, n1) =~= Seq::<(int, int, InlineFormat)>::empty());
    assert(inline_spans(t1) =~= seq![(c, c + 2, InlineFormat::Italic)]);
    assert(first_covering(inline_spans(t1), InlineFormat::Italic, c + 1) == Some(
        (c, c + 2, InlineFormat::Italic),
    ));
    lemma_ascii_utf8_len(t1, c);
    lemma_ascii_utf8_len(t1, c + 1);
    lemma_ascii_utf8_len(t1, c + 2);
    lemma_ascii_utf8_len(t1, n1);
    lemma_ascii_utf8_len(t1, 0);
    assert(t1.subrange(0, n1) =~= t1);
    assert(t1.subrange(0, c) + t1.subrange(c + 1, c + 1) + t1.subrange(c + 2, n1) =~= t);
}

} // verus!
