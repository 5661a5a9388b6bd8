//! Numbering of ordered list lines: `1.`, `2.` at the top level and `1.1.`,
//! `1.2.` one level down.
use vstd::prelude::*;

use crate::block::Block;
use crate::markdown::parser::{detect_list_item, indent_level_of, list_item, ListType};
use crate::text::{
    char_count_bound, chars_of, count_char, decimal, occurs_at, find_from, find_seq, parse_u32, parse_u32_chars,
    push_chars, push_decimal, push_str, skip_white_space, skip_ws, str_byte_len, sub_chars,
    trim_start, utf8_prefix_len,
};
use crate::ui::components::indentation::{push_spaces, spaces};

verus! {

/// Renumbers and re-indents ordered list lines.
#[derive(Debug)]
pub struct OrderedListManager {
    pub max_indent_level: usize,
}

/// The text after the first `". "` of `t`, or nothing when there is none.
pub open spec fn after_dot_space(t: Seq<char>) -> Seq<char> {
    match find_from(t, seq!['.', ' '], 0) {
        Some(k) => t.subrange(k + 2, t.len() as int),
        None => seq![],
    }
}

/// The number in front of the first `.` of a line (after leading white
/// space), as `u32::from_str` reads it.
pub open spec fn main_number(content: Seq<char>) -> Option<u32> {
    let t = trim_start(content);
    match find_from(t, seq!['.'], 0) {
        Some(k) => parse_u32(t.subrange(0, k)),
        None => None,
    }
}

/// The label of an item: `"n."` at level 0, `"n.s."` at level 1 (`s`
/// defaulting to 1), `"n."` deeper.
pub open spec fn number_label(level: int, main_num: nat, sub_num: Option<u32>) -> Seq<char> {
    if level == 1 {
        decimal(main_num) + seq!['.'] + decimal(
            match sub_num {
                Some(s) => s as nat,
                None => 1,
            },
        ) + seq!['.']
    } else {
        decimal(main_num) + seq!['.']
    }
}

/// What `increase_indent` gives for a line at `level`.
pub open spec fn indented_item(
    max_level: int,
    content: Seq<char>,
    level: int,
    prev_main: Option<u32>,
) -> Option<Seq<char>> {
    if level >= max_level {
        None
    } else {
        let m: u32 = match prev_main {
            Some(p) => p,
            None => match main_number(content) {
                Some(x) => x,
                None => 1,
            },
        };
        Some(spaces(2 * (level + 1)) + decimal(m as nat) + seq!['.', '1', '.', ' '] + after_dot_space(
            trim_start(content),
        ))
    }
}

/// Whether `decrease_indent` turns the line into the next top-level item:
/// it is indented and holds more than one `.`, and a main number can be
/// read.
pub open spec fn promotes(content: Seq<char>) -> bool {
    indent_level_of(content) > 0 && count_char(trim_start(content), '.') > 1 && main_number(
        content,
    ) is Some
}

/// What `decrease_indent` gives: `None` for a line without indentation;
/// otherwise one level (two spaces) less, and a sub-item becomes the top-level
/// item after its main number.
pub open spec fn outdented_item(content: Seq<char>) -> Option<Seq<char>> {
    let level = indent_level_of(content);
    let t = trim_start(content);
    if level == 0 {
        None
    } else if promotes(content) {
        Some(spaces(2 * (level - 1)) + decimal((main_number(content)->0 + 1) as nat) + seq!['.', ' ']
            + after_dot_space(t))
    } else {
        Some(spaces(2 * (level - 1)) + t)
    }
}

/// Counters of a renumbering pass: next main number, next sub number and the
/// current main number.
pub type Counters = (nat, nat, nat);

/// One line of a renumbering pass: `None` ends the pass (the line is not an
/// ordered item); otherwise the new line and counters.  Top-level items take
/// the next main number, level-one items the current main number and the
/// next sub number; deeper items stay as they are.
pub open spec fn renumber_line(c: Seq<char>, k: Counters) -> Option<(Seq<char>, Counters)> {
    match list_item(c) {
        Some(item) => if item.0 == ListType::Ordered {
            if item.1 == 0 {
                Some((decimal(k.0) + seq!['.', ' '] + item.2, (k.0 + 1, 1nat, k.0)))
            } else if item.1 == 1 {
                Some((spaces(2) + decimal(k.2) + seq!['.'] + decimal(k.1) + seq!['.', ' '] + item.2, (
                    k.0,
                    k.1 + 1,
                    k.2,
                )))
            } else {
                Some((c, k))
            }
        } else {
            None
        },
        None => None,
    }
}

/// The lines `cs` after renumbering from index `i` with counters `k`.
pub open spec fn renumbered(cs: Seq<Seq<char>>, i: int, k: Counters) -> Seq<Seq<char>>
    decreases cs.len() - i,
{
    if i < 0 || i >= cs.len() {
        cs
    } else {
        match renumber_line(cs[i], k) {
            None => cs,
            Some((line, k2)) => renumbered(cs.update(i, line), i + 1, k2),
        }
    }
}

/// The texts of a list of blocks.
pub open spec fn block_texts(bs: Seq<Block>) -> Seq<Seq<char>> {
    bs.map_values(|b: Block| b.content@)
}

/// Renumbering changes only the text of each line.
proof fn lemma_renumbered_len(cs: Seq<Seq<char>>, i: int, k: Counters)
    ensures
        renumbered(cs, i, k).len() == cs.len(),
        forall|j: int| 0 <= j < i && j < cs.len() ==> #[trigger] renumbered(cs, i, k)[j] == cs[j],
    decreases cs.len() - i,
{
    if 0 <= i < cs.len() {
        match renumber_line(cs[i], k) {
            None => {},
            Some((line, k2)) => {
                lemma_renumbered_len(cs.update(i, line), i + 1, k2);
            },
        }
    }
}

/// Appends `level` pairs of spaces.
fn push_indent(s: &mut String, level: usize)
    ensures
        final(s)@ == old(s)@ + spaces(2 * level),
{
    let mut i: usize = 0;
    while i < level
        invariant
            i <= level,
            s@ == old(s)@ + spaces(2 * i),
        decreases level - i,
    {
        push_spaces(s, 2);
        i = i + 1;
        assert(s@ =~= old(s)@ + spaces(2 * i));
    }
}

/// Appends the text after the first `". "` of `t`.
fn push_after_dot_space(s: &mut String, t: &[char])
    ensures
        final(s)@ == old(s)@ + after_dot_space(t@),
{
    let pat = vec!['.', ' '];
    assert(pat@ == seq!['.', ' ']);
    match find_seq(t, &pat, 0) {
        Some(k) => {
            let n = t.len();
            assert(occurs_at(t@, pat@, k as int));
            push_chars(s, t, k + 2, n);
        },
        None => {
            assert(old(s)@ + seq![] =~= old(s)@);
        },
    }
}

impl OrderedListManager {
    /// One level of sub-items.
    pub fn new() -> (r: Self)
        ensures
            r.max_indent_level == 1,
    {
        OrderedListManager { max_indent_level: 1 }
    }

    /// The label of an item at `level` (see `number_label`).
    pub fn format_number(&self, level: usize, main_num: u32, sub_num: Option<u32>) -> (r: String)
        ensures
            r@ == number_label(level as int, main_num as nat, sub_num),
    {
        let mut r = String::new();
        push_decimal(&mut r, main_num);
        if level == 1 {
            push_str(&mut r, ".");
            let s = match sub_num {
                Some(s) => s,
                None => 1,
            };
            push_decimal(&mut r, s);
        }
        push_str(&mut r, ".");
        proof {
            reveal_strlit(".");
        }
        assert(r@ =~= number_label(level as int, main_num as nat, sub_num));
        r
    }

    /// The line moved one level in as sub-item 1 of the previous main number
    /// (or of its own, or of 1), keeping the text after its `". "`; `None`
    /// at the deepest level (see `indented_item`).
    pub fn increase_indent(&self, content: &str, current_level: usize, prev_main_number: Option<
        u32,
    >) -> (r: Option<String>)
        ensures
            r matches Some(s) ==> indented_item(
                self.max_indent_level as int,
                content@,
                current_level as int,
                prev_main_number,
            ) == Some(s@),
            r is None ==> indented_item(
                self.max_indent_level as int,
                content@,
                current_level as int,
                prev_main_number,
            ) is None,
    {
        if current_level >= self.max_indent_level {
            return None;
        }
        let chars = chars_of(content);
        let w = skip_ws(&chars, 0);
        let t = sub_chars(&chars, w, chars.len());
        assert(t@ == trim_start(content@));
        let main_num = match prev_main_number {
            Some(p) => p,
            None => match self.extract_main_number(content) {
                Some(x) => x,
                None => 1,
            },
        };
        let mut r = String::new();
        push_indent(&mut r, current_level + 1);
        push_decimal(&mut r, main_num);
        push_str(&mut r, ".1. ");
        push_after_dot_space(&mut r, &t);
        proof {
            reveal_strlit(".1. ");
        }
        assert(r@ =~= spaces(2 * (current_level + 1)) + decimal(main_num as nat) + seq![
            '.',
            '1',
            '.',
            ' ',
        ] + after_dot_space(trim_start(content@)));
        Some(r)
    }

    /// The line moved one level out (see `outdented_item`); `None` when it
    /// has no indentation.
    pub fn decrease_indent(&self, content: &str) -> (r: Option<String>)
        requires
            promotes(content@) ==> main_number(content@)->0 < u32::MAX,
        ensures
            r matches Some(s) ==> outdented_item(content@) == Some(s@),
            r is None ==> outdented_item(content@) is None,
    {
        let chars = chars_of(content);
        let w = skip_ws(&chars, 0);
        let _total = str_byte_len(content);
        let bytes = utf8_prefix_len(&chars, w);
        let level = bytes / 2;
        assert(level == indent_level_of(content@));
        if level == 0 {
            return None;
        }
        let t = sub_chars(&chars, w, chars.len());
        assert(t@ == trim_start(content@));
        let dots = count_in(&t, '.');
        let mut r = String::new();
        push_indent(&mut r, level - 1);
        if dots > 1 {
            match self.extract_main_number(content) {
                Some(m) => {
                    push_decimal(&mut r, m + 1);
                    push_str(&mut r, ". ");
                    push_after_dot_space(&mut r, &t);
                    proof {
                        reveal_strlit(". ");
                    }
                    assert(r@ =~= spaces(2 * (level - 1)) + decimal((m + 1) as nat) + seq!['.', ' ']
                        + after_dot_space(t@));
                    return Some(r);
                },
                None => {},
            }
        }
        push_chars(&mut r, &t, 0, t.len());
        assert(t@.subrange(0, t@.len() as int) =~= t@);
        Some(r)
    }

    /// The number in front of the first `.` (see `main_number`).
    fn extract_main_number(&self, content: &str) -> (r: Option<u32>)
        ensures
            r == main_number(content@),
    {
        let chars = chars_of(content);
        let w = skip_ws(&chars, 0);
        let t = sub_chars(&chars, w, chars.len());
        assert(t@ == trim_start(content@));
        let dot = vec!['.'];
        assert(dot@ == seq!['.']);
        match find_seq(&t, &dot, 0) {
            Some(k) => parse_u32_chars(&t, 0, k),
            None => None,
        }
    }

    /// Renumbers the ordered items from `start_index` on until the first
    /// line that is not one (see `renumbered`); identities and kinds stay.
    pub fn renumber_list_sequence(&self, blocks: &mut [Block], start_index: usize)
        requires
            old(blocks)@.len() < u32::MAX,
        ensures
            final(blocks)@.len() == old(blocks)@.len(),
            block_texts(final(blocks)@) == renumbered(
                block_texts(old(blocks)@),
                start_index as int,
                (1nat, 1nat, 1nat),
            ),
            forall|j: int|
                0 <= j < old(blocks)@.len() ==> (#[trigger] final(blocks)@[j]).id == old(blocks)@[j].id && final(blocks)@[j].block_type == old(blocks)@[j].block_type,
    {
        let mut main_counter: u32 = 1;
        let mut sub_counter: u32 = 1;
        let mut current_main: u32 = 1;
        let ghost cs0 = block_texts(blocks@);
        let n = blocks.len();
        let mut i = start_index;
        proof {
            lemma_renumbered_len(cs0, start_index as int, (1nat, 1nat, 1nat));
        }
        while i < n
            invariant
                n == blocks@.len() == old(blocks)@.len(),
                cs0 == block_texts(old(blocks)@),
                n < u32::MAX,
                1 <= main_counter,
                main_counter as int <= 1 + i - start_index,
                i >= start_index,
                1 <= sub_counter,
                sub_counter as int <= 1 + i - start_index,
                current_main <= main_counter,
                renumbered(cs0, start_index as int, (1nat, 1nat, 1nat)) == renumbered(
                    block_texts(blocks@),
                    i as int,
                    (main_counter as nat, sub_counter as nat, current_main as nat),
                ),
                forall|j: int|
                    0 <= j < n ==> (#[trigger] blocks@[j]).id == old(blocks)@[j].id
                        && blocks@[j].block_type == old(blocks)@[j].block_type,
            decreases n - i,
        {
            let ghost cs = block_texts(blocks@);
            let ghost k: Counters = (main_counter as nat, sub_counter as nat, current_main as nat);
            assert(cs[i as int] == blocks@[i as int].content@);
            match detect_list_item(&blocks[i].content) {
                Some(info) => {
                    if info.list_type == ListType::Ordered {
                        if info.indent_level == 0 {
                            let mut line = String::new();
                            push_decimal(&mut line, main_counter);
                            push_str(&mut line, ". ");
                            push_str(&mut line, &info.content);
                            proof {
                                reveal_strlit(". ");
                            }
                            assert(line@ =~= decimal(k.0) + seq!['.', ' '] + info.content@);
                            let id = blocks[i].id;
                            let bt = blocks[i].block_type;
                            blocks[i] = Block { id, block_type: bt, content: line };
                            assert(block_texts(blocks@) =~= cs.update(i as int, line@));
                            current_main = main_counter;
                            main_counter = main_counter + 1;
                            sub_counter = 1;
                        } else if info.indent_level == 1 {
                            let mut line = String::new();
                            push_str(&mut line, "  ");
                            push_decimal(&mut line, current_main);
                            push_str(&mut line, ".");
                            push_decimal(&mut line, sub_counter);
                            push_str(&mut line, ". ");
                            push_str(&mut line, &info.content);
                            proof {
                                reveal_strlit("  ");
                                reveal_strlit(".");
                                reveal_strlit(". ");
                            }
                            assert(line@ =~= spaces(2) + decimal(k.2) + seq!['.'] + decimal(k.1)
                                + seq!['.', ' '] + info.content@);
                            let id = blocks[i].id;
                            let bt = blocks[i].block_type;
                            blocks[i] = Block { id, block_type: bt, content: line };
                            assert(block_texts(blocks@) =~= cs.update(i as int, line@));
                            sub_counter = sub_counter + 1;
                        } else {
                            assert(cs.update(i as int, cs[i as int]) =~= cs);
                        }
                    } else {
                        return;
                    }
                },
                None => {
                    return;
                },
            }
            i = i + 1;
        }
    }
}

/// Number of occurrences of `c` in `s`.
fn count_in(s: &[char], c: char) -> (n: usize)
    ensures
        n == count_char(s@, c),
{
    let mut n: usize = 0;
    let mut i: usize = 0;
    while i < s.len()
        invariant
            i <= s@.len(),
            n == count_char(s@.subrange(0, i as int), c),
            n <= i,
        decreases s@.len() - i,
    {
        assert(s@.subrange(0, i + 1).drop_last() =~= s@.subrange(0, i as int));
        if s[i] == c {
            n = n + 1;
        }
        i = i + 1;
    }
    assert(s@.subrange(0, s@.len() as int) =~= s@);
    n
}

impl Default for OrderedListManager {
    fn default() -> (r: Self)
        ensures
            r.max_indent_level == 1,
    {
        Self::new()
    }
}

/// The parts of a list line (its kind, level, text and marker), when it is
/// one.
pub open spec fn list_entry(c: Seq<char>) -> (ListType, nat, Seq<char>, char) {
    match list_item(c) {
        Some(item) => item,
        None => (ListType::Unordered, 0nat, c, ' '),
    }
}

/// The level-one items `cs[i..i + m]` take the sub numbers `k.1`, `k.1 + 1`,
/// ... under main number `k.2`.
proof fn lemma_sub_items_numbered(cs: Seq<Seq<char>>, i: int, k: Counters, m: int)
    requires
        0 <= i,
        0 <= m,
        i + m <= cs.len(),
        forall|q: int|
            0 <= q < m ==> (#[trigger] list_item(cs[i + q])) is Some && list_entry(cs[i + q]).0
                == ListType::Ordered && list_entry(cs[i + q]).1 == 1,
    ensures
        forall|q: int|
            0 <= q < m ==> #[trigger] renumbered(cs, i, k)[i + q] == seq![' ', ' '] + decimal(k.2)
                + seq!['.'] + decimal(k.1 + q as nat) + seq!['.', ' '] + list_entry(cs[i + q]).2,
    decreases m,
{
    if m > 0 {
        assert(list_item(cs[i + 0]) is Some);
        assert(cs[i + 0] == cs[i]);
        let item = list_item(cs[i])->0;
        let line0 = spaces(2) + decimal(k.2) + seq!['.'] + decimal(k.1) + seq!['.', ' '] + item.2;
        let k2 = (k.0, k.1 + 1, k.2);
        assert(renumber_line(cs[i], k) == Some((line0, k2)));
        let cs2 = cs.update(i, line0);
        assert(renumbered(cs, i, k) == renumbered(cs2, i + 1, k2));
        assert forall|q: int| 0 <= q < m - 1 implies (#[trigger] list_item(cs2[i + 1 + q])) is Some
            && list_entry(cs2[i + 1 + q]).0 == ListType::Ordered && list_entry(cs2[i + 1 + q]).1
            == 1 by {
            assert(cs2[i + 1 + q] == cs[i + (q + 1)]);
            assert(list_item(cs[i + (q + 1)]) is Some);
        }
        lemma_sub_items_numbered(cs2, i + 1, k2, m - 1);
        lemma_renumbered_len(cs2, i + 1, k2);
        assert(spaces(2) =~= seq![' ', ' ']);
        assert forall|q: int| 0 <= q < m implies #[trigger] renumbered(cs, i, k)[i + q] == seq![
            ' ',
            ' ',
        ] + decimal(k.2) + seq!['.'] + decimal(k.1 + q as nat) + seq!['.', ' '] + list_entry(
            cs[i + q],
        ).2 by {
            if q == 0 {
                assert(renumbered(cs2, i + 1, k2)[i] == cs2[i]);
            } else {
                assert(renumbered(cs2, i + 1, k2)[i + 1 + (q - 1)] == seq![' ', ' '] + decimal(k2.2)
                    + seq!['.'] + decimal(k2.1 + (q - 1) as nat) + seq!['.', ' '] + list_entry(
                    cs2[i + 1 + (q - 1)],
                ).2);
                assert(i + 1 + (q - 1) == i + q);
                assert(cs2[i + q] == cs[i + q]);
                assert(k2.1 + (q - 1) as nat == k.1 + q as nat);
            }
        }
    }
}

/// A top-level ordered item followed by level-one ordered items is numbered
/// as one list: the item takes the next main number `n`, and the `q`-th
/// item below it is labelled `n.q.` (sub numbers 1, 2, 3, ... in order).
pub proof fn law_sub_items_count_up(cs: Seq<Seq<char>>, i: int, k: Counters, m: int)
    requires
        0 <= i,
        1 <= m,
        i + m <= cs.len(),
        list_item(cs[i]) is Some,
        list_entry(cs[i]).0 == ListType::Ordered,
        list_entry(cs[i]).1 == 0,
        forall|q: int|
            1 <= q < m ==> (#[trigger] list_item(cs[i + q])) is Some && list_entry(cs[i + q]).0
                == ListType::Ordered && list_entry(cs[i + q]).1 == 1,
    ensures
        renumbered(cs, i, k)[i] == decimal(k.0) + seq!['.', ' '] + list_entry(cs[i]).2,
        forall|q: int|
            1 <= q < m ==> #[trigger] renumbered(cs, i, k)[i + q] == seq![' ', ' '] + decimal(k.0)
                + seq!['.'] + decimal(q as nat) + seq!['.', ' '] + list_entry(cs[i + q]).2,
{
    let item = list_item(cs[i])->0;
    let line0 = decimal(k.0) + seq!['.', ' '] + item.2;
    let k2 = (k.0 + 1, 1nat, k.0);
    assert(renumber_line(cs[i], k) == Some((line0, k2)));
    let cs2 = cs.update(i, line0);
    assert(renumbered(cs, i, k) == renumbered(cs2, i + 1, k2));
    lemma_renumbered_len(cs2, i + 1, k2);
    assert(renumbered(cs2, i + 1, k2)[i] == cs2[i]);
    assert forall|q: int| 0 <= q < m - 1 implies (#[trigger] list_item(cs2[i + 1 + q])) is Some
        && list_entry(cs2[i + 1 + q]).0 == ListType::Ordered && list_entry(cs2[i + 1 + q]).1
        == 1 by {
        assert(cs2[i + 1 + q] == cs[i + (q + 1)]);
        assert(list_item(cs[i + (q + 1)]) is Some);
    }
    lemma_sub_items_numbered(cs2, i + 1, k2, m - 1);
    assert forall|q: int| 1 <= q < m implies #[trigger] renumbered(cs, i, k)[i + q] == seq![
        ' ',
        ' ',
    ] + decimal(k.0) + seq!['.'] + decimal(q as nat) + seq!['.', ' '] + list_entry(cs[i + q]).2 by {
        assert(renumbered(cs2, i + 1, k2)[i + 1 + (q - 1)] == seq![' ', ' '] + decimal(k2.2) + seq![
            '.',
        ] + decimal(k2.1 + (q - 1) as nat) + seq!['.', ' '] + list_entry(cs2[i + 1 + (q - 1)]).2);
        assert(i + 1 + (q - 1) == i + q);
        assert(cs2[i + q] == cs[i + q]);
        assert(1nat + (q - 1) as nat == q as nat);
    }
}

} // verus!
