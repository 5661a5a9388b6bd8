//! Character-level helpers shared by the parsers and the editing models.
//!
//! Text is reasoned about as its sequence of `char`s (the view `s@` of a
//! `str` or `String`).  Byte lengths, where a computation needs them, are
//! given by `utf8_len`.
use vstd::prelude::*;

verus! {

/// Unicode `White_Space` property, the set `char::is_whitespace` tests.
pub open spec fn is_white_space(c: char) -> bool {
    let u = c as u32;
    ||| 0x09 <= u <= 0x0D
    ||| u == 0x20
    ||| u == 0x85
    ||| u == 0xA0
    ||| u == 0x1680
    ||| 0x2000 <= u <= 0x200A
    ||| u == 0x2028
    ||| u == 0x2029
    ||| u == 0x202F
    ||| u == 0x205F
    ||| u == 0x3000
}

/// Number of bytes of `c` in UTF-8.
pub open spec fn char_utf8_len(c: char) -> int {
    let u = c as u32;
    if u < 0x80 {
        1
    } else if u < 0x800 {
        2
    } else if u < 0x10000 {
        3
    } else {
        4
    }
}

/// Number of bytes of `s` in UTF-8.
pub open spec fn utf8_len(s: Seq<char>) -> nat
    decreases s.len(),
{
    if s.len() == 0 {
        0
    } else {
        (utf8_len(s.drop_last()) + char_utf8_len(s.last())) as nat
    }
}

/// The UTF-8 length of a concatenation is the sum of the lengths.
pub proof fn lemma_utf8_len_concat(a: Seq<char>, b: Seq<char>)
    ensures
        utf8_len(a + b) == utf8_len(a) + utf8_len(b),
    decreases b.len(),
{
    if b.len() == 0 {
        assert(a + b =~= a);
    } else {
        lemma_utf8_len_concat(a, b.drop_last());
        assert((a + b).drop_last() =~= a + b.drop_last());
    }
}

/// A prefix is no longer in UTF-8 than the whole.
pub proof fn lemma_utf8_len_prefix(s: Seq<char>, i: int)
    requires
        0 <= i <= s.len(),
    ensures
        utf8_len(s.subrange(0, i)) <= utf8_len(s),
{
    lemma_utf8_len_concat(s.subrange(0, i), s.subrange(i, s.len() as int));
    assert(s.subrange(0, i) + s.subrange(i, s.len() as int) =~= s);
}

/// Every character takes at least one byte.
pub proof fn lemma_utf8_len_ge(s: Seq<char>)
    ensures
        s.len() <= utf8_len(s),
    decreases s.len(),
{
    if s.len() > 0 {
        lemma_utf8_len_ge(s.drop_last());
    }
}

/// A longer prefix takes strictly more bytes.
pub proof fn lemma_utf8_prefix_strict(s: Seq<char>, i: int, j: int)
    requires
        0 <= i < j <= s.len(),
    ensures
        utf8_len(s.subrange(0, i)) < utf8_len(s.subrange(0, j)),
    decreases j - i,
{
    assert(s.subrange(0, j).drop_last() =~= s.subrange(0, j - 1));
    if i < j - 1 {
        lemma_utf8_prefix_strict(s, i, j - 1);
    }
}

/// Byte offset `b` of `s` lies on a character boundary: some prefix of `s`
/// takes exactly `b` bytes.
pub open spec fn is_boundary(s: Seq<char>, b: int) -> bool {
    exists|k: int| 0 <= k <= s.len() && #[trigger] utf8_len(s.subrange(0, k)) == b
}

/// The number of characters in the first `b` bytes of `s`, when `b` is a
/// boundary.
pub open spec fn char_pos(s: Seq<char>, b: int) -> int {
    choose|k: int| 0 <= k <= s.len() && #[trigger] utf8_len(s.subrange(0, k)) == b
}

/// The characters between byte offsets `a` and `b` of `s` (`&s[a..b]`).
pub open spec fn byte_slice(s: Seq<char>, a: int, b: int) -> Seq<char> {
    s.subrange(char_pos(s, a), char_pos(s, b))
}

/// The prefix of `k` characters ends at the boundary of its byte length,
/// and that boundary is after `k` characters.
pub proof fn lemma_char_pos(s: Seq<char>, k: int)
    requires
        0 <= k <= s.len(),
    ensures
        is_boundary(s, utf8_len(s.subrange(0, k)) as int),
        char_pos(s, utf8_len(s.subrange(0, k)) as int) == k,
{
    let b = utf8_len(s.subrange(0, k)) as int;
    assert(0 <= k <= s.len() && utf8_len(s.subrange(0, k)) == b);
    let j = char_pos(s, b);
    if j < k {
        lemma_utf8_prefix_strict(s, j, k);
    } else if j > k {
        lemma_utf8_prefix_strict(s, k, j);
    }
}

/// Boundaries are within the text, and the characters before them grow
/// with them.
pub proof fn lemma_char_pos_mono(s: Seq<char>, x: int, y: int)
    requires
        is_boundary(s, x),
        is_boundary(s, y),
        x <= y,
    ensures
        0 <= char_pos(s, x) <= char_pos(s, y) <= s.len(),
        utf8_len(s.subrange(0, char_pos(s, x))) == x,
        utf8_len(s.subrange(0, char_pos(s, y))) == y,
        0 <= x <= y <= utf8_len(s),
{
    let i = char_pos(s, x);
    let j = char_pos(s, y);
    if j < i {
        lemma_utf8_prefix_strict(s, j, i);
    }
    lemma_utf8_len_prefix(s, j);
}

/// The start and the end of a text are boundaries.
pub proof fn lemma_ends_are_boundaries(s: Seq<char>)
    ensures
        is_boundary(s, 0),
        char_pos(s, 0) == 0,
        is_boundary(s, utf8_len(s) as int),
        char_pos(s, utf8_len(s) as int) == s.len(),
{
    lemma_char_pos(s, 0);
    assert(s.subrange(0, s.len() as int) =~= s);
    lemma_char_pos(s, s.len() as int);
}

/// Removing the character at byte `b` keeps at least the bytes before it.
pub proof fn lemma_remove_keeps_prefix(s: Seq<char>, b: int)
    requires
        is_boundary(s, b),
        b < utf8_len(s),
    ensures
        0 <= char_pos(s, b) < s.len(),
        b <= utf8_len(s.remove(char_pos(s, b))),
{
    let k = char_pos(s, b);
    lemma_ends_are_boundaries(s);
    lemma_char_pos_mono(s, b, utf8_len(s) as int);
    if k == s.len() {
        assert(s.subrange(0, k) =~= s);
    }
    assert(s.remove(k) =~= s.subrange(0, k) + s.subrange(k + 1, s.len() as int));
    lemma_utf8_len_concat(s.subrange(0, k), s.subrange(k + 1, s.len() as int));
}

/// The bytes before boundary `b` are `b` bytes long.
pub proof fn lemma_byte_prefix_len(s: Seq<char>, b: int)
    requires
        is_boundary(s, b),
    ensures
        utf8_len(byte_slice(s, 0, b)) == b,
        b <= utf8_len(s),
{
    lemma_ends_are_boundaries(s);
    lemma_char_pos_mono(s, 0, b);
}

/// Appends the characters between byte offsets `a` and `b` of `chars`.
pub fn push_byte_slice(r: &mut String, chars: &[char], a: usize, b: usize)
    requires
        utf8_len(chars@) <= usize::MAX,
        is_boundary(chars@, a as int),
        is_boundary(chars@, b as int),
        a <= b,
    ensures
        final(r)@ == old(r)@ + byte_slice(chars@, a as int, b as int),
{
    proof {
        lemma_char_pos_mono(chars@, a as int, b as int);
    }
    match (byte_to_char(chars, a), byte_to_char(chars, b)) {
        (Some(i), Some(j)) => push_chars(r, chars, i, j),
        _ => {},
    }
}

/// In ASCII text every byte offset up to the length is a boundary, after
/// as many characters.
pub open spec fn is_ascii_text(s: Seq<char>) -> bool {
    forall|j: int| 0 <= j < s.len() ==> (#[trigger] s[j] as u32) < 0x80
}

/// An ASCII prefix takes one byte per character.
pub proof fn lemma_ascii_utf8_len(s: Seq<char>, k: int)
    requires
        is_ascii_text(s),
        0 <= k <= s.len(),
    ensures
        utf8_len(s.subrange(0, k)) == k,
        is_boundary(s, k),
        char_pos(s, k) == k,
    decreases k,
{
    if k > 0 {
        lemma_ascii_utf8_len(s, k - 1);
        assert(s.subrange(0, k).drop_last() =~= s.subrange(0, k - 1));
        assert(s.subrange(0, k).last() == s[k - 1]);
    }
    lemma_char_pos(s, k);
}

/// The character index at byte offset `b` of `s`, or `None` when `b` is not
/// a boundary (`str::is_char_boundary`, with the offset past the end).
pub fn byte_to_char(s: &[char], b: usize) -> (r: Option<usize>)
    requires
        utf8_len(s@) <= usize::MAX,
    ensures
        match r {
            Some(k) => k <= s@.len() && utf8_len(s@.subrange(0, k as int)) == b && is_boundary(
                s@,
                b as int,
            ) && char_pos(s@, b as int) == k,
            None => !is_boundary(s@, b as int),
        },
{
    let mut n: usize = 0;
    let mut i: usize = 0;
    while i < s.len() && n < b
        invariant
            i <= s@.len(),
            utf8_len(s@) <= usize::MAX,
            n == utf8_len(s@.subrange(0, i as int)),
            forall|k: int| 0 <= k < i ==> #[trigger] utf8_len(s@.subrange(0, k)) < b,
        decreases s@.len() - i,
    {
        proof {
            lemma_utf8_len_prefix(s@, i + 1);
            assert(s@.subrange(0, i + 1).drop_last() =~= s@.subrange(0, i as int));
        }
        let l = len_utf8(s[i]);
        n = n + l;
        i = i + 1;
    }
    if n == b {
        proof {
            lemma_char_pos(s@, i as int);
        }
        Some(i)
    } else {
        proof {
            assert forall|k: int| 0 <= k <= s@.len() implies #[trigger] utf8_len(s@.subrange(0, k))
                != b by {
                if k > i {
                    lemma_utf8_prefix_strict(s@, i as int, k);
                }
            }
        }
        None
    }
}

/// Byte length of `s` (`str::len`): the number of bytes of its UTF-8
/// encoding, which like every Rust allocation is at most `isize::MAX`.
#[verifier::external_body]
pub(crate) fn str_byte_len(s: &str) -> (n: usize)
    ensures
        n == utf8_len(s@),
        n <= isize::MAX,
{
    s.len()
}

/// The number of characters of `s` is at most `isize::MAX`.
pub fn char_count_bound(s: &str)
    ensures
        s@.len() <= isize::MAX,
{
    let _n = str_byte_len(s);
    proof {
        lemma_utf8_len_ge(s@);
    }
}

/// The first index at or after `i` whose character is not white space
/// (`s.len()` when there is none).
pub open spec fn skip_white_space(s: Seq<char>, i: int) -> int
    decreases s.len() - i,
{
    if 0 <= i < s.len() && is_white_space(s[i]) {
        skip_white_space(s, i + 1)
    } else {
        i
    }
}

/// Skipping white space from `i` stays within `i..=s.len()`.
pub proof fn lemma_skip_white_space_bounds(s: Seq<char>, i: int)
    requires
        0 <= i <= s.len(),
    ensures
        i <= skip_white_space(s, i) <= s.len(),
    decreases s.len() - i,
{
    if i < s.len() && is_white_space(s[i]) {
        lemma_skip_white_space_bounds(s, i + 1);
    }
}

/// `str::trim_start`: `s` without its leading white space.
pub open spec fn trim_start(s: Seq<char>) -> Seq<char> {
    s.subrange(skip_white_space(s, 0), s.len() as int)
}

/// `s` without its leading and trailing white space (`str::trim`).
pub open spec fn trim(s: Seq<char>) -> Seq<char> {
    let t = trim_start(s);
    t.subrange(0, t.len() - trailing_white_space(t))
}

/// Number of white-space characters at the end of `s`.
pub open spec fn trailing_white_space(s: Seq<char>) -> int
    decreases s.len(),
{
    if s.len() > 0 && is_white_space(s.last()) {
        1 + trailing_white_space(s.drop_last())
    } else {
        0
    }
}

/// `s` begins with `p`.
pub open spec fn starts_with(s: Seq<char>, p: Seq<char>) -> bool {
    p.len() <= s.len() && s.subrange(0, p.len() as int) == p
}

/// `p` occurs in `s` at index `k`.
pub open spec fn occurs_at(s: Seq<char>, p: Seq<char>, k: int) -> bool {
    0 <= k && k + p.len() <= s.len() && s.subrange(k, k + p.len()) == p
}

/// The first index at or after `i` where `p` occurs in `s`.
pub open spec fn find_from(s: Seq<char>, p: Seq<char>, i: int) -> Option<int>
    decreases s.len() + 1 - i,
{
    if i < 0 || i + p.len() > s.len() {
        None
    } else if occurs_at(s, p, i) {
        Some(i)
    } else {
        find_from(s, p, i + 1)
    }
}

/// What `find_from` finds: the first occurrence at or after `i`.
pub proof fn lemma_find_from(s: Seq<char>, p: Seq<char>, i: int)
    requires
        0 <= i,
    ensures
        match find_from(s, p, i) {
            Some(k) => i <= k && occurs_at(s, p, k) && forall|j: int|
                i <= j < k ==> !occurs_at(s, p, j),
            None => forall|j: int| i <= j ==> !occurs_at(s, p, j),
        },
    decreases s.len() + 1 - i,
{
    if i + p.len() > s.len() {
    } else if occurs_at(s, p, i) {
    } else {
        lemma_find_from(s, p, i + 1);
    }
}

/// Where `p` is found in a suffix of `s` is where it is found in `s`,
/// shifted.
pub proof fn lemma_find_from_shift(s: Seq<char>, p: Seq<char>, pos: int, i: int)
    requires
        0 <= pos <= s.len(),
        0 <= i,
    ensures
        find_from(s.subrange(pos, s.len() as int), p, i) == match find_from(s, p, pos + i) {
            Some(k) => Some(k - pos),
            None => None::<int>,
        },
    decreases s.len() + 1 - (pos + i),
{
    let t = s.subrange(pos, s.len() as int);
    if i + p.len() > t.len() {
    } else {
        assert(t.subrange(i, i + p.len()) =~= s.subrange(pos + i, pos + i + p.len()));
        if !occurs_at(t, p, i) {
            lemma_find_from_shift(s, p, pos, i + 1);
        }
    }
}

/// Number of occurrences of `c` in `s`.
pub open spec fn count_char(s: Seq<char>, c: char) -> nat
    decreases s.len(),
{
    if s.len() == 0 {
        0
    } else {
        count_char(s.drop_last(), c) + if s.last() == c {
            1nat
        } else {
            0nat
        }
    }
}

/// Occurrences in a concatenation add up.
pub proof fn lemma_count_char_concat(a: Seq<char>, b: Seq<char>, c: char)
    ensures
        count_char(a + b, c) == count_char(a, c) + count_char(b, c),
    decreases b.len(),
{
    if b.len() == 0 {
        assert(a + b =~= a);
    } else {
        lemma_count_char_concat(a, b.drop_last(), c);
        assert((a + b).drop_last() =~= a + b.drop_last());
    }
}

/// `char::is_ascii_digit`.
pub open spec fn is_ascii_digit(c: char) -> bool {
    '0' <= c && c <= '9'
}

/// `char::is_whitespace`, written out from the `White_Space` list.
pub fn is_whitespace(c: char) -> (b: bool)
    ensures
        b == is_white_space(c),
{
    let u = c as u32;
    (0x09 <= u && u <= 0x0D) || u == 0x20 || u == 0x85 || u == 0xA0 || u == 0x1680 || (0x2000
        <= u && u <= 0x200A) || u == 0x2028 || u == 0x2029 || u == 0x202F || u == 0x205F || u
        == 0x3000
}

/// Number of bytes of `c` in UTF-8 (`char::len_utf8`).
pub fn len_utf8(c: char) -> (n: usize)
    ensures
        n == char_utf8_len(c),
        1 <= n <= 4,
{
    let u = c as u32;
    if u < 0x80 {
        1
    } else if u < 0x800 {
        2
    } else if u < 0x10000 {
        3
    } else {
        4
    }
}

/// The characters of `s`, in order.
pub fn chars_of(s: &str) -> (v: Vec<char>)
    ensures
        v@ == s@,
{
    let mut v: Vec<char> = Vec::new();
    for c in it: s.chars()
        invariant
            v@ == it.seq().take(it.index() as int),
    {
        v.push(c);
    }
    v
}

/// Appends `c` to `s` through `String::push`: the new contents are the old
/// ones followed by `c`.
#[verifier::external_body]
pub(crate) fn push_char(s: &mut String, c: char)
    ensures
        final(s)@ == old(s)@.push(c),
{
    s.push(c);
}

/// Appends the characters `v[from..to]` to `s`.
pub fn push_chars(s: &mut String, v: &[char], from: usize, to: usize)
    requires
        from <= to <= v@.len(),
    ensures
        final(s)@ == old(s)@ + v@.subrange(from as int, to as int),
{
    let mut i = from;
    while i < to
        invariant
            from <= i <= to <= v@.len(),
            s@ == old(s)@ + v@.subrange(from as int, i as int),
        decreases to - i,
    {
        push_char(s, v[i]);
        i = i + 1;
        assert(v@.subrange(from as int, i as int) == v@.subrange(from as int, i - 1).push(
            v@[i - 1],
        ));
    }
}

/// A `String` holding the characters `v[from..to]`.
pub fn string_of(v: &[char], from: usize, to: usize) -> (s: String)
    requires
        from <= to <= v@.len(),
    ensures
        s@ == v@.subrange(from as int, to as int),
{
    let mut s = String::new();
    push_chars(&mut s, v, from, to);
    s
}

/// A copy of `v[from..to]`.
pub fn sub_chars(v: &[char], from: usize, to: usize) -> (r: Vec<char>)
    requires
        from <= to <= v@.len(),
    ensures
        r@ == v@.subrange(from as int, to as int),
{
    let mut r: Vec<char> = Vec::new();
    let mut i = from;
    while i < to
        invariant
            from <= i <= to <= v@.len(),
            r@ == v@.subrange(from as int, i as int),
        decreases to - i,
    {
        r.push(v[i]);
        i = i + 1;
        assert(r@ =~= v@.subrange(from as int, i as int));
    }
    r
}

/// Appends `t` to `s`.
pub fn push_str(s: &mut String, t: &str)
    ensures
        final(s)@ == old(s)@ + t@,
{
    let v = chars_of(t);
    push_chars(s, &v, 0, v.len());
    assert(v@.subrange(0, v@.len() as int) == v@);
}

/// Index of the first non-white-space character of `s` at or after `i`.
pub fn skip_ws(s: &[char], i: usize) -> (r: usize)
    requires
        i <= s@.len(),
    ensures
        r == skip_white_space(s@, i as int),
        i <= r <= s@.len(),
{
    let mut j = i;
    while j < s.len() && is_whitespace(s[j])
        invariant
            i <= j <= s@.len(),
            skip_white_space(s@, i as int) == skip_white_space(s@, j as int),
        decreases s@.len() - j,
    {
        j = j + 1;
    }
    j
}

/// Number of UTF-8 bytes of `s[0..to]`, given that the whole of `s` takes
/// no more than `usize::MAX` bytes.
pub fn utf8_prefix_len(s: &[char], to: usize) -> (n: usize)
    requires
        to <= s@.len(),
        utf8_len(s@) <= usize::MAX,
    ensures
        n == utf8_len(s@.subrange(0, to as int)),
{
    let mut n: usize = 0;
    let mut i: usize = 0;
    while i < to
        invariant
            i <= to <= s@.len(),
            utf8_len(s@) <= usize::MAX,
            n == utf8_len(s@.subrange(0, i as int)),
        decreases to - i,
    {
        let k = len_utf8(s[i]);
        assert(s@.subrange(0, i + 1).drop_last() == s@.subrange(0, i as int));
        proof {
            lemma_utf8_len_prefix(s@, i + 1);
        }
        n = n + k;
        i = i + 1;
    }
    n
}

/// `p` occurs in `s` at index `k` (executable).
pub fn matches_at(s: &[char], p: &[char], k: usize) -> (b: bool)
    ensures
        b == occurs_at(s@, p@, k as int),
{
    if k > s.len() || p.len() > s.len() - k {
        return false;
    }
    let mut j: usize = 0;
    while j < p.len()
        invariant
            k + p@.len() <= s@.len(),
            s@.len() == s.len(),
            j <= p@.len(),
            forall|t: int| 0 <= t < j ==> s@[k + t] == p@[t],
        decreases p@.len() - j,
    {
        let idx = k + j;
        if s[idx] != p[j] {
            assert(s@.subrange(k as int, k + p@.len())[j as int] != p@[j as int]);
            return false;
        }
        j = j + 1;
    }
    assert(s@.subrange(k as int, k + p@.len()) =~= p@);
    true
}

/// The first index at or after `i` where `p` occurs in `s` (executable).
pub fn find_seq(s: &[char], p: &[char], i: usize) -> (r: Option<usize>)
    ensures
        r matches Some(k) ==> find_from(s@, p@, i as int) == Some(k as int),
        r is None ==> find_from(s@, p@, i as int) is None,
        r matches Some(k) ==> i <= k && occurs_at(s@, p@, k as int),
{
    proof {
        lemma_find_from(s@, p@, i as int);
    }
    if p.len() > s.len() {
        return None;
    }
    let last = s.len() - p.len();
    let mut k = i;
    while k <= last
        invariant
            i <= k,
            last == s@.len() - p@.len(),
            find_from(s@, p@, i as int) == find_from(s@, p@, k as int),
        decreases last + 1 - k,
    {
        if matches_at(s, p, k) {
            return Some(k);
        }
        if k == last {
            assert(find_from(s@, p@, k + 1) is None);
            return None;
        }
        k = k + 1;
    }
    None
}

/// The character of decimal digit `d` (`'0'` to `'9'`).
pub open spec fn digit_char(d: int) -> char {
    if d == 0 {
        '0'
    } else if d == 1 {
        '1'
    } else if d == 2 {
        '2'
    } else if d == 3 {
        '3'
    } else if d == 4 {
        '4'
    } else if d == 5 {
        '5'
    } else if d == 6 {
        '6'
    } else if d == 7 {
        '7'
    } else if d == 8 {
        '8'
    } else {
        '9'
    }
}

/// The decimal notation of `n`, without leading zeros.
pub open spec fn decimal(n: nat) -> Seq<char>
    decreases n,
{
    if n < 10 {
        seq![digit_char(n as int)]
    } else {
        decimal(n / 10).push(digit_char((n % 10) as int))
    }
}

/// The character of decimal digit `d`.
pub fn digit_to_char(d: u32) -> (c: char)
    requires
        d < 10,
    ensures
        c == digit_char(d as int),
{
    if d == 0 {
        '0'
    } else if d == 1 {
        '1'
    } else if d == 2 {
        '2'
    } else if d == 3 {
        '3'
    } else if d == 4 {
        '4'
    } else if d == 5 {
        '5'
    } else if d == 6 {
        '6'
    } else if d == 7 {
        '7'
    } else if d == 8 {
        '8'
    } else {
        '9'
    }
}

/// Appends the decimal notation of `n` to `s`.
pub fn push_decimal(s: &mut String, n: u32)
    ensures
        final(s)@ == old(s)@ + decimal(n as nat),
    decreases n,
{
    if n >= 10 {
        push_decimal(s, n / 10);
    }
    push_char(s, digit_to_char(n % 10));
    assert(s@ =~= old(s)@ + decimal(n as nat));
}

/// The value of a run of ASCII digits.
pub open spec fn digits_value(s: Seq<char>) -> nat
    decreases s.len(),
{
    if s.len() == 0 {
        0
    } else {
        digits_value(s.drop_last()) * 10 + (s.last() as nat - '0' as nat) as nat
    }
}

/// The digits part of a `u32` literal: `s` without a leading `+`.
pub open spec fn unsigned_digits(s: Seq<char>) -> Seq<char> {
    if s.len() > 0 && s[0] == '+' {
        s.subrange(1, s.len() as int)
    } else {
        s
    }
}

/// Every character of `s` is an ASCII digit.
pub open spec fn all_ascii_digits(s: Seq<char>) -> bool {
    forall|j: int| 0 <= j < s.len() ==> is_ascii_digit(#[trigger] s[j])
}

/// `u32::from_str` (radix 10): an optional `+`, then at least one ASCII
/// digit and nothing else, with a value that fits in a `u32`.
pub open spec fn parse_u32(s: Seq<char>) -> Option<u32> {
    let d = unsigned_digits(s);
    if d.len() > 0 && all_ascii_digits(d) && digits_value(d) <= u32::MAX {
        Some(digits_value(d) as u32)
    } else {
        None
    }
}

/// The value of a run of digits is at least that of any prefix.
proof fn lemma_digits_value_prefix(s: Seq<char>, i: int)
    requires
        0 <= i <= s.len(),
        forall|j: int| 0 <= j < s.len() ==> is_ascii_digit(#[trigger] s[j]),
    ensures
        digits_value(s.subrange(0, i)) <= digits_value(s),
    decreases s.len() - i,
{
    if i < s.len() {
        lemma_digits_value_prefix(s, i + 1);
        assert(s.subrange(0, i + 1).drop_last() =~= s.subrange(0, i));
    } else {
        assert(s.subrange(0, i) =~= s);
    }
}

/// Parses `s[from..to]` as `u32::from_str` does (see `parse_u32`).
pub fn parse_u32_chars(s: &[char], from: usize, to: usize) -> (r: Option<u32>)
    requires
        from <= to <= s@.len(),
    ensures
        r == parse_u32(s@.subrange(from as int, to as int)),
{
    let ghost t = s@.subrange(from as int, to as int);
    let mut i = from;
    if from < to && s[from] == '+' {
        i = from + 1;
    }
    let ghost d = s@.subrange(i as int, to as int);
    assert(d =~= unsigned_digits(t));
    if i == to {
        return None;
    }
    let mut j = i;
    while j < to
        invariant
            i <= j <= to <= s@.len(),
            d == s@.subrange(i as int, to as int),
            t == s@.subrange(from as int, to as int),
            d == unsigned_digits(t),
            d.len() > 0,
            forall|k: int| 0 <= k < j - i ==> is_ascii_digit(#[trigger] d[k]),
        decreases to - j,
    {
        if !('0' <= s[j] && s[j] <= '9') {
            assert(!is_ascii_digit(d[j - i]));
            assert(!all_ascii_digits(d));
            return None;
        }
        j = j + 1;
    }
    let mut acc: u64 = 0;
    let mut j = i;
    while j < to
        invariant
            i <= j <= to <= s@.len(),
            d == s@.subrange(i as int, to as int),
            t == s@.subrange(from as int, to as int),
            d == unsigned_digits(t),
            forall|k: int| 0 <= k < d.len() ==> is_ascii_digit(#[trigger] d[k]),
            acc == digits_value(d.subrange(0, j - i)),
            acc <= u32::MAX,
        decreases to - j,
    {
        assert(d.subrange(0, j - i + 1).drop_last() =~= d.subrange(0, j - i));
        assert(d.subrange(0, j - i + 1).last() == s@[j as int]);
        assert(is_ascii_digit(d[j - i]));
        let dv = (s[j] as u32 - '0' as u32) as u64;
        acc = acc * 10 + dv;
        assert(acc == digits_value(d.subrange(0, j - i + 1)));
        if acc > 0xffff_ffff {
            proof {
                lemma_digits_value_prefix(d, j - i + 1);
            }
            return None;
        }
        j = j + 1;
    }
    assert(d.subrange(0, j - i) =~= d);
    Some(acc as u32)
}

/// Bounds `(a, b)` with `v[a..b]` the text of `v` without leading and
/// trailing white space (`str::trim`).
pub fn trim_chars(v: &[char]) -> (r: (usize, usize))
    ensures
        r.0 <= r.1 <= v@.len(),
        v@.subrange(r.0 as int, r.1 as int) == trim(v@),
{
    let n = v.len();
    let a = skip_ws(v, 0);
    let ghost t = v@.subrange(a as int, n as int);
    assert(t == trim_start(v@));
    let mut b = n;
    while b > a && is_whitespace(v[b - 1])
        invariant
            a <= b <= n == v@.len(),
            t == v@.subrange(a as int, n as int),
            trailing_white_space(t) == (n - b) + trailing_white_space(
                v@.subrange(a as int, b as int),
            ),
        decreases b,
    {
        assert(v@.subrange(a as int, b as int).drop_last() =~= v@.subrange(a as int, b - 1));
        b = b - 1;
    }
    assert(t.subrange(0, t.len() - trailing_white_space(t)) =~= v@.subrange(a as int, b as int));
    (a, b)
}

/// `char::is_control`: the general category Cc, U+0000 to U+001F and
/// U+007F to U+009F.
pub open spec fn is_control_char(c: char) -> bool {
    (c as u32) <= 0x1F || (0x7F <= (c as u32) && (c as u32) <= 0x9F)
}

/// `char::is_control` (executable).
pub fn is_control(c: char) -> (b: bool)
    ensures
        b == is_control_char(c),
{
    let u = c as u32;
    u <= 0x1F || (0x7F <= u && u <= 0x9F)
}

/// The decimal notation of `n` is a non-empty run of digits worth `n`.
proof fn lemma_decimal_digits(n: nat)
    ensures
        decimal(n).len() > 0,
        all_ascii_digits(decimal(n)),
        digits_value(decimal(n)) == n,
    decreases n,
{
    if n < 10 {
        let d = decimal(n);
        assert(d.drop_last() =~= Seq::<char>::empty());
        assert(digits_value(Seq::<char>::empty()) == 0);
    } else {
        lemma_decimal_digits(n / 10);
        let d = decimal(n);
        let p = decimal(n / 10);
        assert(d.drop_last() =~= p);
        assert forall|j: int| 0 <= j < d.len() implies is_ascii_digit(#[trigger] d[j]) by {
            if j < p.len() {
                assert(d[j] == p[j]);
            }
        }
        assert((n / 10) * 10 + n % 10 == n);
    }
}

/// Reading back a number written in decimal gives the number:
/// `u32::from_str` of the notation `push_decimal` writes.
pub proof fn law_decimal_parses_back(n: u32)
    ensures
        parse_u32(decimal(n as nat)) == Some(n),
{
    lemma_decimal_digits(n as nat);
    let d = decimal(n as nat);
    assert(is_ascii_digit(d[0]));
    assert(unsigned_digits(d) == d);
}

} // verus!
