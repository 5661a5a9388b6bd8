//! Recognition of Markdown line prefixes: headings and list items.
use vstd::prelude::*;

use crate::text::{
    chars_of, find_from, find_seq, occurs_at, skip_white_space, skip_ws, starts_with,
    str_byte_len, string_of, trim_start, utf8_len, utf8_prefix_len, is_ascii_digit,
    lemma_utf8_len_prefix, sub_chars,
};

verus! {

/// `str::starts_with` at index `i`: the text from `i` on begins with `p`.
proof fn lemma_starts_with_at(s: Seq<char>, p: Seq<char>, i: int)
    requires
        0 <= i <= s.len(),
    ensures
        starts_with(s.subrange(i, s.len() as int), p) == occurs_at(s, p, i),
{
    if p.len() <= s.len() - i {
        assert(s.subrange(i, s.len() as int).subrange(0, p.len() as int) =~= s.subrange(
            i,
            i + p.len(),
        ));
    }
}

/// Heading level announced by the start of `content`: 3 for `"### "`,
/// 2 for `"## "`, 1 for `"# "` (after leading white space).
pub open spec fn heading_level(content: Seq<char>) -> Option<u8> {
    let t = trim_start(content);
    if starts_with(t, seq!['#', '#', '#', ' ']) {
        Some(3)
    } else if starts_with(t, seq!['#', '#', ' ']) {
        Some(2)
    } else if starts_with(t, seq!['#', ' ']) {
        Some(1)
    } else {
        None
    }
}

/// Kind of a list item.
#[derive(Debug, Clone, Copy, PartialEq, Eq, Structural)]
pub enum ListType {
    Unordered,
    Ordered,
}

/// A recognised list item.
#[derive(Debug, Clone, PartialEq)]
pub struct ListInfo {
    pub list_type: ListType,
    pub indent_level: usize,
    pub content: String,
    pub marker: char,
}

/// All characters of `s[0..k]` are ASCII digits.
pub open spec fn all_digits(s: Seq<char>, k: int) -> bool {
    forall|j: int| 0 <= j < k ==> is_ascii_digit(#[trigger] s[j])
}

/// Indentation level of a line: bytes of leading white space, halved.
pub open spec fn indent_level_of(content: Seq<char>) -> nat {
    utf8_len(content.subrange(0, skip_white_space(content, 0))) / 2
}

/// The list item that `content` denotes, as (kind, indentation level, item
/// text, marker).  An unordered item starts with `"- "`, `"* "` or `"+ "`;
/// an ordered one with a run of at least one ASCII digit followed by the
/// first `". "` of the line.  Leading white space is skipped.
pub open spec fn list_item(content: Seq<char>) -> Option<(ListType, nat, Seq<char>, char)> {
    let t = trim_start(content);
    let indent = indent_level_of(content);
    if t.len() >= 2 && (t[0] == '-' || t[0] == '*' || t[0] == '+') && t[1] == ' ' {
        Some((ListType::Unordered, indent, t.subrange(2, t.len() as int), t[0]))
    } else {
        match find_from(t, seq!['.', ' '], 0) {
            Some(k) => if k > 0 && all_digits(t, k) {
                Some((ListType::Ordered, indent, t.subrange(k + 2, t.len() as int), '1'))
            } else {
                None
            },
            None => None,
        }
    }
}

/// `ListInfo` `info` describes the item `spec`.
pub open spec fn list_info_is(info: ListInfo, spec: (ListType, nat, Seq<char>, char)) -> bool {
    &&& info.list_type == spec.0
    &&& info.indent_level == spec.1
    &&& info.content@ == spec.2
    &&& info.marker == spec.3
}

/// Heading level of a line (`"# "`, `"## "` or `"### "` after leading white
/// space), or `None`.
pub fn detect_heading_level(content: &str) -> (r: Option<u8>)
    ensures
        r == heading_level(content@),
{
    let chars = chars_of(content);
    let i = skip_ws(&chars, 0);
    proof {
        lemma_starts_with_at(chars@, seq!['#', '#', '#', ' '], i as int);
        lemma_starts_with_at(chars@, seq!['#', '#', ' '], i as int);
        lemma_starts_with_at(chars@, seq!['#', ' '], i as int);
    }
    let h3 = vec!['#', '#', '#', ' '];
    let h2 = vec!['#', '#', ' '];
    let h1 = vec!['#', ' '];
    assert(h3@ == seq!['#', '#', '#', ' ']);
    assert(h2@ == seq!['#', '#', ' ']);
    assert(h1@ == seq!['#', ' ']);
    if crate::text::matches_at(&chars, &h3, i) {
        Some(3)
    } else if crate::text::matches_at(&chars, &h2, i) {
        Some(2)
    } else if crate::text::matches_at(&chars, &h1, i) {
        Some(1)
    } else {
        None
    }
}

/// All of `s[0..k]` are ASCII digits (executable).
fn digits_only(s: &[char], k: usize) -> (b: bool)
    requires
        k <= s@.len(),
    ensures
        b == all_digits(s@, k as int),
{
    let mut j: usize = 0;
    while j < k
        invariant
            j <= k <= s@.len(),
            all_digits(s@, j as int),
        decreases k - j,
    {
        if !('0' <= s[j] && s[j] <= '9') {
            return false;
        }
        j = j + 1;
    }
    true
}

/// The list item that `content` denotes (see `list_item`), or `None`.
pub fn detect_list_item(content: &str) -> (r: Option<ListInfo>)
    ensures
        match r {
            Some(info) => list_item(content@) matches Some(spec) && list_info_is(info, spec),
            None => list_item(content@) is None,
        },
{
    let chars = chars_of(content);
    let w = skip_ws(&chars, 0);
    let total = str_byte_len(content);
    let bytes = utf8_prefix_len(&chars, w);
    let indent = bytes / 2;
    let n = chars.len();
    let t = sub_chars(&chars, w, n);
    assert(t@ == trim_start(content@));
    if n - w >= 2 && (chars[w] == '-' || chars[w] == '*' || chars[w] == '+') && chars[w + 1] == ' ' {
        let item = string_of(&t, 2, t.len());
        return Some(ListInfo { list_type: ListType::Unordered, indent_level: indent, content: item, marker: chars[w] });
    }
    let pat = vec!['.', ' '];
    assert(pat@ == seq!['.', ' ']);
    match find_seq(&t, &pat, 0) {
        Some(k) => {
            if k > 0 && digits_only(&t, k) {
                let item = string_of(&t, k + 2, t.len());
                Some(ListInfo { list_type: ListType::Ordered, indent_level: indent, content: item, marker: '1' })
            } else {
                None
            }
        }
        None => None,
    }
}

/// `content` is a list item.
pub fn is_list_item(content: &str) -> (b: bool)
    ensures
        b == (list_item(content@) is Some),
{
    detect_list_item(content).is_some()
}

/// After leading white space, `content` starts with an ASCII digit and
/// contains `". "` somewhere.
pub open spec fn numbered_list(content: Seq<char>) -> bool {
    let t = trim_start(content);
    t.len() > 0 && is_ascii_digit(t[0]) && find_from(t, seq!['.', ' '], 0) is Some
}

/// The line looks like a numbered list item (see `numbered_list`).
pub fn detect_numbered_list(content: &str) -> (b: bool)
    ensures
        b == numbered_list(content@),
{
    let chars = chars_of(content);
    let w = skip_ws(&chars, 0);
    if w == chars.len() || !('0' <= chars[w] && chars[w] <= '9') {
        return false;
    }
    let t = sub_chars(&chars, w, chars.len());
    let pat = vec!['.', ' '];
    assert(pat@ == seq!['.', ' ']);
    find_seq(&t, &pat, 0).is_some()
}

} // verus!
