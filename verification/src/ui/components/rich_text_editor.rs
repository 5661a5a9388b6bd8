//! A single-line input that shows its inline formatting: text, cursor and
//! focus.
use vstd::prelude::*;

use crate::text::{
    byte_slice, byte_to_char, char_pos, chars_of, is_boundary, lemma_char_pos_mono,
    lemma_ends_are_boundaries, lemma_utf8_len_concat, push_byte_slice, push_chars, push_str,
    str_byte_len, utf8_len,
};

verus! {

/// The state of the input.
#[derive(Debug)]
pub struct RichTextEditor {
    pub text: String,
    pub cursor_pos: usize,
    pub is_focused: bool,
}

/// Keys the input reacts to.
#[derive(Debug, Clone, Copy, PartialEq, Eq, Structural)]
pub enum EditKey {
    ArrowLeft,
    ArrowRight,
    Backspace,
    Other,
}

/// The text and cursor after a key, and whether to redraw.  The cursor is
/// a byte offset: the arrows move it by one byte, Backspace removes the
/// character that starts one byte before it.
pub open spec fn key_result(text: Seq<char>, pos: int, key: EditKey) -> (Seq<char>, int, bool) {
    match key {
        EditKey::ArrowLeft => if pos > 0 {
            (text, pos - 1, true)
        } else {
            (text, pos, false)
        },
        EditKey::ArrowRight => if pos < utf8_len(text) {
            (text, pos + 1, true)
        } else {
            (text, pos, false)
        },
        EditKey::Backspace => if pos > 0 {
            (text.remove(char_pos(text, pos - 1)), pos - 1, true)
        } else {
            (text, pos, false)
        },
        EditKey::Other => (text, pos, false),
    }
}

/// Where a key is defined: Backspace needs the byte before the cursor to
/// start a character.
pub open spec fn key_allowed(text: Seq<char>, pos: int, key: EditKey) -> bool {
    key == EditKey::Backspace && pos > 0 ==> is_boundary(text, pos - 1)
}

impl RichTextEditor {
    /// The cursor lies within the text's bytes.
    pub open spec fn wf(&self) -> bool {
        self.cursor_pos <= utf8_len(self.text@)
    }

    /// An empty input.
    pub fn new() -> (r: Self)
        ensures
            r.wf(),
            r.text@.len() == 0,
            r.cursor_pos == 0,
            !r.is_focused,
    {
        RichTextEditor { text: String::new(), cursor_pos: 0, is_focused: false }
    }

    /// The text.
    pub fn text(&self) -> (r: &str)
        ensures
            r@ == self.text@,
    {
        self.text.as_str()
    }

    /// Replaces the text; the cursor stays within its bytes.
    pub fn set_text(&mut self, text: String)
        ensures
            final(self).wf(),
            final(self).text == text,
            final(self).cursor_pos == if old(self).cursor_pos <= utf8_len(text@) {
                old(self).cursor_pos as int
            } else {
                utf8_len(text@) as int
            },
            final(self).is_focused == old(self).is_focused,
    {
        let n = str_byte_len(text.as_str());
        self.text = text;
        if self.cursor_pos > n {
            self.cursor_pos = n;
        }
    }

    /// A key press (see `key_result`); returns whether to redraw.
    pub fn handle_key(&mut self, key: EditKey) -> (redraw: bool)
        requires
            old(self).wf(),
            key_allowed(old(self).text@, old(self).cursor_pos as int, key),
        ensures
            final(self).wf(),
            (final(self).text@, final(self).cursor_pos as int, redraw) == key_result(
                old(self).text@,
                old(self).cursor_pos as int,
                key,
            ),
            final(self).is_focused == old(self).is_focused,
    {
        let chars = chars_of(self.text.as_str());
        let n = str_byte_len(self.text.as_str());
        match key {
            EditKey::ArrowLeft => {
                if self.cursor_pos > 0 {
                    self.cursor_pos = self.cursor_pos - 1;
                    true
                } else {
                    false
                }
            },
            EditKey::ArrowRight => {
                if self.cursor_pos < n {
                    self.cursor_pos = self.cursor_pos + 1;
                    true
                } else {
                    false
                }
            },
            EditKey::Backspace => {
                if self.cursor_pos > 0 {
                    let b = self.cursor_pos - 1;
                    match byte_to_char(&chars, b) {
                        Some(k) => {
                            proof {
                                crate::text::lemma_utf8_len_prefix(chars@, k as int);
                                if k == chars@.len() {
                                    assert(chars@.subrange(0, k as int) =~= chars@);
                                }
                            }
                            let mut t = String::new();
                            push_chars(&mut t, &chars, 0, k);
                            push_chars(&mut t, &chars, k + 1, chars.len());
                            assert(t@ =~= chars@.remove(k as int));
                            proof {
                                let a = chars@.subrange(0, k as int);
                                let c = chars@.subrange(k as int, k + 1);
                                let d = chars@.subrange(k + 1, chars@.len() as int);
                                assert(chars@ =~= a + c + d);
                                lemma_utf8_len_concat(a + c, d);
                                lemma_utf8_len_concat(a, c);
                                lemma_utf8_len_concat(a, d);
                                assert(chars@.remove(k as int) =~= a + d);
                            }
                            self.text = t;
                            self.cursor_pos = b;
                            true
                        },
                        None => false,
                    }
                } else {
                    false
                }
            },
            EditKey::Other => false,
        }
    }

    /// Typed text is inserted at the cursor's byte offset, and the cursor
    /// moves past its bytes.
    pub fn text_input(&mut self, input: &str)
        requires
            old(self).wf(),
            is_boundary(old(self).text@, old(self).cursor_pos as int),
        ensures
            final(self).wf(),
            final(self).text@ == byte_slice(old(self).text@, 0, old(self).cursor_pos as int)
                + input@ + byte_slice(
                old(self).text@,
                old(self).cursor_pos as int,
                utf8_len(old(self).text@) as int,
            ),
            final(self).cursor_pos == old(self).cursor_pos + utf8_len(input@),
            final(self).is_focused == old(self).is_focused,
    {
        let chars = chars_of(self.text.as_str());
        let n = str_byte_len(self.text.as_str());
        let p = self.cursor_pos;
        proof {
            lemma_ends_are_boundaries(chars@);
            lemma_char_pos_mono(chars@, 0, p as int);
            lemma_char_pos_mono(chars@, p as int, n as int);
        }
        let mut t = String::new();
        push_byte_slice(&mut t, &chars, 0, p);
        push_str(&mut t, input);
        push_byte_slice(&mut t, &chars, p, n);
        let m = str_byte_len(t.as_str());
        let ghost a = chars@.subrange(0, char_pos(chars@, p as int));
        let ghost d = chars@.subrange(char_pos(chars@, p as int), chars@.len() as int);
        proof {
            lemma_utf8_len_concat(a + input@, d);
            lemma_utf8_len_concat(a, input@);
            assert(t@ =~= a + input@ + d);
        }
        let k = str_byte_len(input);
        self.text = t;
        self.cursor_pos = p + k;
        assert(m == utf8_len(self.text@));
    }

    /// A press focuses the input.
    pub fn focus(&mut self)
        ensures
            final(self).is_focused,
            final(self).text == old(self).text,
            final(self).cursor_pos == old(self).cursor_pos,
    {
        self.is_focused = true;
    }
}

} // verus!
