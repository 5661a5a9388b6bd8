//! A multi-line plain text editor: its lines and the cursor's line and
//! column.
use vstd::prelude::*;

use crate::storage::local_storage::join;
use crate::text::{
    byte_slice, byte_to_char, char_count_bound, char_pos, chars_of, find_from, find_seq,
    is_boundary, lemma_char_pos_mono, lemma_ends_are_boundaries, lemma_find_from,
    lemma_find_from_shift, lemma_remove_keeps_prefix, lemma_utf8_len_concat, push_byte_slice,
    push_char, push_chars, push_str,
    str_byte_len, string_of, utf8_len,
};

verus! {

/// The state of the editor.
#[derive(Debug)]
pub struct RichTextEditor {
    pub lines: Vec<String>,
    pub cursor_line: usize,
    pub cursor_col: usize,
}

/// Keys the editor reacts to.
#[derive(Debug, Clone, Copy, PartialEq, Eq, Structural)]
pub enum LineKey {
    ReturnKey,
    Backspace,
    ArrowLeft,
    ArrowRight,
    ArrowUp,
    ArrowDown,
    Other,
}

/// The lines, abstractly.
pub open spec fn lines_view(v: Seq<String>) -> Seq<Seq<char>> {
    v.map_values(|l: String| l@)
}

/// `l` without a final `'\r'`.
pub open spec fn strip_cr(l: Seq<char>) -> Seq<char> {
    if l.len() > 0 && l.last() == '\r' {
        l.drop_last()
    } else {
        l
    }
}

/// `str::lines`: the text split at each `'\n'` (a `'\r'` before it is
/// dropped too); a final line break ends the last line without starting
/// another.
pub open spec fn lines_of(s: Seq<char>) -> Seq<Seq<char>>
    decreases s.len(),
{
    match find_from(s, seq!['\n'], 0) {
        Some(k) => if 0 <= k < s.len() {
            seq![strip_cr(s.subrange(0, k))] + lines_of(s.subrange(k + 1, s.len() as int))
        } else {
            seq![]
        },
        None => if s.len() == 0 {
            seq![]
        } else {
            seq![s]
        },
    }
}

/// The lines, the cursor's line and column after a key.  The column is a
/// byte offset into the line: Enter splits the line there, Backspace
/// removes the character that starts one byte before it (the column goes
/// back by one byte) or joins the line to the one before, the arrows move
/// by one byte or across line ends (up and down keep the column within the
/// new line's bytes).
pub open spec fn key_result(ls: Seq<Seq<char>>, line: int, col: int, key: LineKey) -> (
    Seq<Seq<char>>,
    int,
    int,
) {
    let cur = ls[line];
    let n = utf8_len(cur) as int;
    match key {
        LineKey::ReturnKey => (
            ls.update(line, byte_slice(cur, 0, col)).insert(line + 1, byte_slice(cur, col, n)),
            line + 1,
            0,
        ),
        LineKey::Backspace => if col > 0 {
            (ls.update(line, cur.remove(char_pos(cur, col - 1))), line, col - 1)
        } else if line > 0 {
            let prev = ls[line - 1];
            (ls.remove(line).update(line - 1, prev + cur), line - 1, utf8_len(prev) as int)
        } else {
            (ls, line, col)
        },
        LineKey::ArrowLeft => if col > 0 {
            (ls, line, col - 1)
        } else if line > 0 {
            (ls, line - 1, utf8_len(ls[line - 1]) as int)
        } else {
            (ls, line, col)
        },
        LineKey::ArrowRight => if col < n {
            (ls, line, col + 1)
        } else if line + 1 < ls.len() {
            (ls, line + 1, 0)
        } else {
            (ls, line, col)
        },
        LineKey::ArrowUp => if line > 0 {
            let l = utf8_len(ls[line - 1]) as int;
            (ls, line - 1, if col < l {
                col
            } else {
                l
            })
        } else {
            (ls, line, col)
        },
        LineKey::ArrowDown => if line + 1 < ls.len() {
            let l = utf8_len(ls[line + 1]) as int;
            (ls, line + 1, if col < l {
                col
            } else {
                l
            })
        } else {
            (ls, line, col)
        },
        LineKey::Other => (ls, line, col),
    }
}

/// Where a key is defined: Enter cuts the line at the column, and
/// Backspace removes the character starting one byte before it, so those
/// bytes must start characters (elsewhere the line cannot be cut).
pub open spec fn key_allowed(ls: Seq<Seq<char>>, line: int, col: int, key: LineKey) -> bool {
    match key {
        LineKey::ReturnKey => is_boundary(ls[line], col),
        LineKey::Backspace => col > 0 ==> is_boundary(ls[line], col - 1),
        _ => true,
    }
}

/// The lines of `text` as `str::lines` gives them (see `lines_of`).
pub fn split_lines(text: &str) -> (r: Vec<String>)
    ensures
        lines_view(r@) == lines_of(text@),
{
    let chars = chars_of(text);
    let n = chars.len();
    let nl = vec!['\n'];
    assert(nl@ == seq!['\n']);
    let mut lines: Vec<String> = Vec::new();
    let mut p: usize = 0;
    let ghost s = chars@;
    assert(s.subrange(0, n as int) =~= s);
    loop
        invariant
            p <= n == s.len(),
            s == chars@,
            s == text@,
            nl@ == seq!['\n'],
            lines_of(s) == lines_view(lines@) + lines_of(s.subrange(p as int, n as int)),
        ensures
            p == n,
            lines_of(s) == lines_view(lines@) + lines_of(s.subrange(p as int, n as int)),
        decreases n - p,
    {
        let ghost rest = s.subrange(p as int, n as int);
        proof {
            lemma_find_from_shift(s, seq!['\n'], p as int, 0);
            lemma_find_from(s, seq!['\n'], p as int);
        }
        match find_seq(&chars, &nl, p) {
            Some(k) => {
                let e = if k > p && chars[k - 1] == '\r' {
                    k - 1
                } else {
                    k
                };
                let l = string_of(&chars, p, e);
                assert(l@ == strip_cr(rest.subrange(0, k - p)));
                assert(rest.subrange(k - p + 1, rest.len() as int) =~= s.subrange(
                    k + 1,
                    n as int,
                ));
                let ghost before = lines@;
                lines.push(l);
                assert(lines_view(lines@) =~= lines_view(before).push(l@));
                p = k + 1;
            },
            None => {
                if p < n {
                    let l = string_of(&chars, p, n);
                    let ghost before = lines@;
                    lines.push(l);
                    assert(lines_view(lines@) =~= lines_view(before).push(l@));
                }
                assert(lines_view(lines@) =~= lines_of(s));
                p = n;
                assert(s.subrange(p as int, n as int) =~= Seq::<char>::empty());
                assert(lines_of(Seq::<char>::empty()) =~= Seq::<Seq<char>>::empty());
                assert(lines_view(lines@) + lines_of(s.subrange(p as int, n as int)) =~= lines_view(lines@));
                break;
            },
        }
    }
    assert(s.subrange(p as int, n as int) =~= Seq::<char>::empty());
    assert(lines_of(Seq::<char>::empty()) =~= Seq::<Seq<char>>::empty());
    assert(lines_view(lines@) =~= lines_of(s));
    lines
}

impl RichTextEditor {
    /// There is a line, and the cursor is on a line and within its bytes.
    pub open spec fn wf(&self) -> bool {
        &&& self.lines@.len() > 0
        &&& self.cursor_line < self.lines@.len()
        &&& self.cursor_col <= utf8_len(self.lines@[self.cursor_line as int]@)
    }

    /// One empty line with the cursor on it.
    pub fn new() -> (r: Self)
        ensures
            r.wf(),
            lines_view(r.lines@) == seq![Seq::<char>::empty()],
            r.cursor_line == 0,
            r.cursor_col == 0,
    {
        let r = RichTextEditor { lines: vec![String::new()], cursor_line: 0, cursor_col: 0 };
        assert(lines_view(r.lines@) =~= seq![Seq::<char>::empty()]);
        r
    }

    /// A key press (see `key_result`).
    pub fn handle_key(&mut self, key: LineKey)
        requires
            old(self).wf(),
            key_allowed(
                lines_view(old(self).lines@),
                old(self).cursor_line as int,
                old(self).cursor_col as int,
                key,
            ),
        ensures
            final(self).wf(),
            (lines_view(final(self).lines@), final(self).cursor_line as int, final(self).cursor_col as int)
                == key_result(
                lines_view(old(self).lines@),
                old(self).cursor_line as int,
                old(self).cursor_col as int,
                key,
            ),
    {
        let line = self.cursor_line;
        let col = self.cursor_col;
        let n = self.lines.len();
        let ghost ls = lines_view(self.lines@);
        assert(ls[line as int] == self.lines@[line as int]@);
        char_count_bound(self.lines[line].as_str());
        let cur = chars_of(self.lines[line].as_str());
        let len = str_byte_len(self.lines[line].as_str());
        proof {
            lemma_ends_are_boundaries(cur@);
        }
        match key {
            LineKey::ReturnKey => {
                proof {
                    lemma_char_pos_mono(cur@, 0, col as int);
                    lemma_char_pos_mono(cur@, col as int, len as int);
                }
                let mut before = String::new();
                push_byte_slice(&mut before, &cur, 0, col);
                let mut after = String::new();
                push_byte_slice(&mut after, &cur, col, len);
                self.lines.set(line, before);
                self.lines.insert(line + 1, after);
                self.cursor_line = line + 1;
                self.cursor_col = 0;
                assert(lines_view(self.lines@) =~= ls.update(
                    line as int,
                    byte_slice(ls[line as int], 0, col as int),
                ).insert(line + 1, byte_slice(ls[line as int], col as int, len as int)));
            },
            LineKey::Backspace => {
                if col > 0 {
                    proof {
                        lemma_remove_keeps_prefix(cur@, col - 1);
                    }
                    match byte_to_char(&cur, col - 1) {
                        Some(k) => {
                            let mut t = String::new();
                            push_chars(&mut t, &cur, 0, k);
                            push_chars(&mut t, &cur, k + 1, cur.len());
                            assert(t@ =~= cur@.remove(k as int));
                            self.lines.set(line, t);
                            self.cursor_col = col - 1;
                            assert(lines_view(self.lines@) =~= ls.update(
                                line as int,
                                cur@.remove(char_pos(cur@, col - 1)),
                            ));
                        },
                        None => {},
                    }
                } else if line > 0 {
                    let removed = self.lines.remove(line);
                    let prev = chars_of(self.lines[line - 1].as_str());
                    assert(prev@ == ls[line - 1]);
                    let plen = str_byte_len(self.lines[line - 1].as_str());
                    let mut joined = String::new();
                    push_chars(&mut joined, &prev, 0, prev.len());
                    push_str(&mut joined, removed.as_str());
                    assert(prev@.subrange(0, prev@.len() as int) =~= prev@);
                    proof {
                        lemma_utf8_len_concat(prev@, removed@);
                    }
                    self.lines.set(line - 1, joined);
                    self.cursor_line = line - 1;
                    self.cursor_col = plen;
                    assert(lines_view(self.lines@) =~= ls.remove(line as int).update(
                        line - 1,
                        ls[line - 1] + ls[line as int],
                    ));
                }
            },
            LineKey::ArrowLeft => {
                if col > 0 {
                    self.cursor_col = col - 1;
                } else if line > 0 {
                    self.cursor_line = line - 1;
                    self.cursor_col = str_byte_len(self.lines[line - 1].as_str());
                }
            },
            LineKey::ArrowRight => {
                if col < len {
                    self.cursor_col = col + 1;
                } else if line < n - 1 {
                    self.cursor_line = line + 1;
                    self.cursor_col = 0;
                }
            },
            LineKey::ArrowUp => {
                if line > 0 {
                    self.cursor_line = line - 1;
                    let l = str_byte_len(self.lines[line - 1].as_str());
                    if col > l {
                        self.cursor_col = l;
                    }
                }
            },
            LineKey::ArrowDown => {
                if line < n - 1 {
                    self.cursor_line = line + 1;
                    let l = str_byte_len(self.lines[line + 1].as_str());
                    if col > l {
                        self.cursor_col = l;
                    }
                }
            },
            LineKey::Other => {},
        }
    }

    /// Typed text is inserted at the cursor's byte offset, which must start
    /// a character, and the cursor moves past its bytes.
    pub fn text_input(&mut self, input: &str)
        requires
            old(self).wf(),
            is_boundary(old(self).lines@[old(self).cursor_line as int]@, old(self).cursor_col as int),
        ensures
            final(self).wf(),
            ({
                let ls = lines_view(old(self).lines@);
                let l = old(self).cursor_line as int;
                let c = old(self).cursor_col as int;
                &&& lines_view(final(self).lines@) == ls.update(
                    l,
                    byte_slice(ls[l], 0, c) + input@ + byte_slice(ls[l], c, utf8_len(ls[l]) as int),
                )
                &&& final(self).cursor_line == old(self).cursor_line
                &&& final(self).cursor_col == c + utf8_len(input@)
            }),
    {
        let line = self.cursor_line;
        let col = self.cursor_col;
        let ghost ls = lines_view(self.lines@);
        assert(ls[line as int] == self.lines@[line as int]@);
        char_count_bound(self.lines[line].as_str());
        let cur = chars_of(self.lines[line].as_str());
        let len = str_byte_len(self.lines[line].as_str());
        proof {
            lemma_ends_are_boundaries(cur@);
            lemma_char_pos_mono(cur@, 0, col as int);
            lemma_char_pos_mono(cur@, col as int, len as int);
        }
        let mut t = String::new();
        push_byte_slice(&mut t, &cur, 0, col);
        push_str(&mut t, input);
        push_byte_slice(&mut t, &cur, col, len);
        let m = str_byte_len(t.as_str());
        let k = str_byte_len(input);
        let ghost a = cur@.subrange(0, char_pos(cur@, col as int));
        let ghost d = cur@.subrange(char_pos(cur@, col as int), cur@.len() as int);
        proof {
            lemma_utf8_len_concat(a + input@, d);
            lemma_utf8_len_concat(a, input@);
            assert(t@ =~= a + input@ + d);
        }
        self.lines.set(line, t);
        self.cursor_col = col + k;
        assert(lines_view(self.lines@) =~= ls.update(
            line as int,
            byte_slice(ls[line as int], 0, col as int) + input@ + byte_slice(
                ls[line as int],
                col as int,
                utf8_len(ls[line as int]) as int,
            ),
        ));
    }

    /// Replaces the text by `text` split into lines (see `lines_of`), at
    /// least one; the cursor stays where it was, which may now lie past the
    /// lines.
    pub fn set_text(&mut self, text: &str)
        ensures
            lines_view(final(self).lines@) == if lines_of(text@).len() == 0 {
                seq![Seq::<char>::empty()]
            } else {
                lines_of(text@)
            },
            final(self).cursor_line == old(self).cursor_line,
            final(self).cursor_col == old(self).cursor_col,
    {
        let mut lines = split_lines(text);
        if lines.len() == 0 {
            lines.push(String::new());
            assert(lines_view(lines@) =~= seq![Seq::<char>::empty()]);
        }
        self.lines = lines;
    }

/// The lines joined by line breaks.
    pub fn get_text(&self) -> (r: String)
        ensures
            r@ == join(lines_view(self.lines@), seq!['\n']),
    {
        let ghost ls = lines_view(self.lines@);
        let mut r = String::new();
        let mut i: usize = 0;
        while i < self.lines.len()
            invariant
                i <= self.lines@.len(),
                ls == lines_view(self.lines@),
                r@ == join(ls.subrange(0, i as int), seq!['\n']),
            decreases self.lines@.len() - i,
        {
            assert(ls.subrange(0, i + 1).drop_last() =~= ls.subrange(0, i as int));
            assert(ls.subrange(0, i + 1).last() == self.lines@[i as int]@);
            if i > 0 {
                push_char(&mut r, '\n');
            }
            push_str(&mut r, self.lines[i].as_str());
            i = i + 1;
            assert(r@ =~= join(ls.subrange(0, i as int), seq!['\n']));
        }
        assert(ls.subrange(0, i as int) =~= ls);
        r
    }
}


/// A text that reads back unchanged through lines: no carriage return, and
/// no line break at its end.
pub open spec fn plain_lines_text(s: Seq<char>) -> bool {
    !s.contains('\r') && (s.len() == 0 || s.last() != '\n')
}

/// Joining a line in front of non-empty lines puts a separator between.
proof fn lemma_join_prepend(a: Seq<char>, l: Seq<Seq<char>>, sep: Seq<char>)
    requires
        l.len() > 0,
    ensures
        join(seq![a] + l, sep) == a + sep + join(l, sep),
    decreases l.len(),
{
    let al = seq![a] + l;
    assert(al.drop_last() =~= seq![a] + l.drop_last());
    assert(al.last() == l.last());
    if l.len() == 1 {
        assert(seq![a] + l.drop_last() =~= seq![a]);
        assert(join(seq![a], sep) == a);
        assert(join(al, sep) == join(al.drop_last(), sep) + sep + al.last());
        assert(join(l, sep) == l[0]);
        assert(al.last() == l[0]);
    } else {
        lemma_join_prepend(a, l.drop_last(), sep);
        assert(a + sep + join(l.drop_last(), sep) + sep + l.last() =~= a + sep + (join(
            l.drop_last(),
            sep,
        ) + sep + l.last()));
    }
}

/// The lines of a non-empty plain text, joined by line breaks, give the
/// text back.
proof fn lemma_lines_join(s: Seq<char>)
    requires
        plain_lines_text(s),
        s.len() > 0,
    ensures
        lines_of(s).len() > 0,
        join(lines_of(s), seq!['\n']) == s,
    decreases s.len(),
{
    lemma_find_from(s, seq!['\n'], 0);
    match find_from(s, seq!['\n'], 0) {
        Some(k) => {
            let head = s.subrange(0, k);
            let r = s.subrange(k + 1, s.len() as int);
            assert(s.subrange(k, k + 1) == seq!['\n']);
            assert(s[k] == s.subrange(k, k + 1)[0]);
            if k == s.len() - 1 {
                assert(s.last() == '\n');
            }
            assert(r.len() > 0);
            assert(r.last() == s.last());
            assert forall|j: int| 0 <= j < r.len() implies r[j] != '\r' by {
                assert(r[j] == s[k + 1 + j]);
            }
            assert(!r.contains('\r'));
            if head.len() > 0 && head.last() == '\r' {
                assert(s[k - 1] == head.last());
            }
            assert(strip_cr(head) == head);
            lemma_lines_join(r);
            lemma_join_prepend(head, lines_of(r), seq!['\n']);
            assert(head + seq!['\n'] + r =~= s);
        },
        None => {
            assert(lines_of(s) == seq![s]);
        },
    }
}

/// Reading the text of the editor back after setting it gives the text,
/// when it holds no carriage return and does not end with a line break.
pub proof fn law_get_text_reads_back_set_text(s: Seq<char>)
    requires
        plain_lines_text(s),
    ensures
        join(
            if lines_of(s).len() == 0 {
                seq![Seq::<char>::empty()]
            } else {
                lines_of(s)
            },
            seq!['\n'],
        ) == s,
{
    if s.len() > 0 {
        lemma_lines_join(s);
    } else {
        lemma_find_from(s, seq!['\n'], 0);
        assert(lines_of(s).len() == 0);
        assert(s =~= Seq::<char>::empty());
    }
}


/// A text has no more lines than characters.
pub proof fn lemma_lines_of_len(s: Seq<char>)
    ensures
        lines_of(s).len() <= s.len(),
    decreases s.len(),
{
    lemma_find_from(s, seq!['\n'], 0);
    match find_from(s, seq!['\n'], 0) {
        Some(k) => {
            if 0 <= k < s.len() {
                lemma_lines_of_len(s.subrange(k + 1, s.len() as int));
            }
        },
        None => {},
    }
}

} // verus!
