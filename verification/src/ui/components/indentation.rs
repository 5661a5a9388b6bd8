//! Indentation of list lines.
use vstd::prelude::*;

use crate::markdown::parser::{ListInfo, ListType};
use crate::text::{
    chars_of, is_white_space, lemma_utf8_len_prefix, push_char, push_chars, push_str, skip_white_space,
    skip_ws, str_byte_len, utf8_len, utf8_prefix_len,
};

verus! {

/// `n` spaces.
pub open spec fn spaces(n: int) -> Seq<char> {
    Seq::new(n as nat, |_i: int| ' ')
}

/// Appends `n` spaces to `s`.
pub fn push_spaces(s: &mut String, n: usize)
    ensures
        final(s)@ == old(s)@ + spaces(n as int),
{
    let mut i: usize = 0;
    while i < n
        invariant
            i <= n,
            s@ == old(s)@ + spaces(i as int),
        decreases n - i,
    {
        push_char(s, ' ');
        i = i + 1;
        assert(s@ =~= old(s)@ + spaces(i as int));
    }
}

/// Indents list lines by a fixed number of spaces per level.
#[derive(Debug)]
pub struct IndentationManager {
    pub spaces_per_level: usize,
}

/// Bytes of leading white space of `text`.
pub open spec fn leading_ws_bytes(text: Seq<char>) -> nat {
    utf8_len(text.subrange(0, skip_white_space(text, 0)))
}

impl IndentationManager {
    /// Two spaces per level.
    pub fn new() -> (r: Self)
        ensures
            r.spaces_per_level == 2,
    {
        IndentationManager { spaces_per_level: 2 }
    }

    /// `text` with one more level of indentation in front.
    pub fn increase_indent(&self, text: &str) -> (r: String)
        ensures
            r@ == spaces(self.spaces_per_level as int) + text@,
    {
        let mut r = String::new();
        push_spaces(&mut r, self.spaces_per_level);
        push_str(&mut r, text);
        r
    }

    /// `text` without one level of indentation, when it starts with one;
    /// otherwise `text` unchanged.
    pub fn decrease_indent(&self, text: &str) -> (r: String)
        ensures
            r@ == if self.spaces_per_level <= text@.len() && text@.subrange(
                0,
                self.spaces_per_level as int,
            ) == spaces(self.spaces_per_level as int) {
                text@.subrange(self.spaces_per_level as int, text@.len() as int)
            } else {
                text@
            },
    {
        let chars = chars_of(text);
        let n = self.spaces_per_level;
        let mut strip = n <= chars.len();
        if strip {
            let mut i: usize = 0;
            while i < n
                invariant
                    i <= n <= chars@.len(),
                    chars@ == text@,
                    strip ==> forall|j: int| 0 <= j < i ==> chars@[j] == ' ',
                    !strip ==> chars@.subrange(0, n as int) != spaces(n as int),
                decreases n - i,
            {
                if chars[i] != ' ' && strip {
                    assert(chars@.subrange(0, n as int)[i as int] != spaces(n as int)[i as int]);
                    strip = false;
                }
                i = i + 1;
            }
            if strip {
                assert(chars@.subrange(0, n as int) =~= spaces(n as int));
            }
        }
        let mut r = String::new();
        if strip {
            push_chars(&mut r, &chars, n, chars.len());
        } else {
            push_chars(&mut r, &chars, 0, chars.len());
            assert(chars@.subrange(0, chars@.len() as int) =~= chars@);
        }
        r
    }

    /// Indentation level of `text`: bytes of leading white space divided by
    /// the spaces per level.
    pub fn get_indent_level(&self, text: &str) -> (r: usize)
        requires
            self.spaces_per_level > 0,
        ensures
            r == leading_ws_bytes(text@) / (self.spaces_per_level as nat),
    {
        let chars = chars_of(text);
        let w = skip_ws(&chars, 0);
        let _total = str_byte_len(text);
        let bytes = utf8_prefix_len(&chars, w);
        bytes / self.spaces_per_level
    }

    /// A new list line at `indent_level`: a bullet `"• "` or `"1. "` marker,
    /// then `content`.
    pub fn create_list_item(&self, list_type: ListType, indent_level: usize, content: &str) -> (r:
        String)
        requires
            indent_level * self.spaces_per_level <= usize::MAX,
        ensures
            r@ == spaces(indent_level * self.spaces_per_level) + match list_type {
                ListType::Unordered => seq!['•', ' '],
                ListType::Ordered => seq!['1', '.', ' '],
            } + content@,
    {
        let mut r = String::new();
        push_spaces(&mut r, indent_level * self.spaces_per_level);
        match list_type {
            ListType::Unordered => {
                push_char(&mut r, '•');
                push_char(&mut r, ' ');
            },
            ListType::Ordered => {
                push_char(&mut r, '1');
                push_char(&mut r, '.');
                push_char(&mut r, ' ');
            },
        }
        push_str(&mut r, content);
        r
    }

    /// The start of the line following list item `list_info`: its
    /// indentation and marker (`"1. "` for ordered items).
    pub fn continue_list_item(&self, list_info: &ListInfo) -> (r: String)
        requires
            list_info.indent_level * self.spaces_per_level <= usize::MAX,
        ensures
            r@ == spaces(list_info.indent_level * self.spaces_per_level) + match list_info.list_type {
                ListType::Unordered => seq![list_info.marker, ' '],
                ListType::Ordered => seq!['1', '.', ' '],
            },
    {
        let mut r = String::new();
        push_spaces(&mut r, list_info.indent_level * self.spaces_per_level);
        match list_info.list_type {
            ListType::Unordered => {
                push_char(&mut r, list_info.marker);
                push_char(&mut r, ' ');
            },
            ListType::Ordered => {
                push_char(&mut r, '1');
                push_char(&mut r, '.');
                push_char(&mut r, ' ');
            },
        }
        r
    }
}

impl Default for IndentationManager {
    fn default() -> (r: Self)
        ensures
            r.spaces_per_level == 2,
    {
        Self::new()
    }
}

/// Decreasing the indentation undoes increasing it.
pub proof fn law_decrease_undoes_increase(n: int, text: Seq<char>)
    requires
        n >= 0,
    ensures
        ({
            let t = spaces(n) + text;
            n <= t.len() && t.subrange(0, n) == spaces(n) && t.subrange(n, t.len() as int) == text
        }),
{
    let t = spaces(n) + text;
    assert(t.subrange(0, n) =~= spaces(n));
    assert(t.subrange(n, t.len() as int) =~= text);
}

/// Skipping white space in `a + b` from inside `b` is skipping it in `b`.
proof fn lemma_skip_ws_suffix(a: Seq<char>, b: Seq<char>, k: int)
    requires
        0 <= k <= b.len(),
    ensures
        skip_white_space(a + b, a.len() + k) == a.len() + skip_white_space(b, k),
    decreases b.len() - k,
{
    if k < b.len() {
        assert((a + b)[a.len() + k] == b[k]);
        if is_white_space(b[k]) {
            lemma_skip_ws_suffix(a, b, k + 1);
        }
    }
}

/// Leading spaces are skipped as white space.
proof fn lemma_skip_ws_spaces(n: int, t: Seq<char>, j: int)
    requires
        0 <= j <= n,
    ensures
        skip_white_space(spaces(n) + t, j) == n + skip_white_space(t, 0),
    decreases n - j,
{
    if j < n {
        assert((spaces(n) + t)[j] == ' ');
        lemma_skip_ws_spaces(n, t, j + 1);
    } else {
        lemma_skip_ws_suffix(spaces(n), t, 0);
    }
}

/// Each space takes one byte.
proof fn lemma_utf8_len_spaces(n: int)
    requires
        n >= 0,
    ensures
        utf8_len(spaces(n)) == n,
    decreases n,
{
    if n > 0 {
        lemma_utf8_len_spaces(n - 1);
        assert(spaces(n).drop_last() =~= spaces(n - 1));
    }
}

/// Indenting a line raises its indentation level by exactly one.
pub proof fn law_increase_adds_one_level(n: int, text: Seq<char>)
    requires
        n > 0,
    ensures
        (leading_ws_bytes(spaces(n) + text) as int) / n == (leading_ws_bytes(text) as int) / n + 1,
{
    let w = skip_white_space(text, 0);
    crate::text::lemma_skip_white_space_bounds(text, 0);
    lemma_skip_ws_spaces(n, text, 0);
    assert((spaces(n) + text).subrange(0, n + w) =~= spaces(n) + text.subrange(0, w));
    crate::text::lemma_utf8_len_concat(spaces(n), text.subrange(0, w));
    lemma_utf8_len_spaces(n);
    let l = leading_ws_bytes(text) as int;
    assert(leading_ws_bytes(spaces(n) + text) == n + l);
    assert((n + l) / n == l / n + 1) by (nonlinear_arith)
        requires
            n > 0,
            l >= 0,
    ;
}

} // verus!
