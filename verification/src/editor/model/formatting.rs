//! Toggling bold or italic on a range of characters of a block.
use vstd::prelude::*;

use crate::editor::model::block::{styles_len, styles_prefix_len, Block, BlockView, StyleBits, StyleSpan};
use crate::editor::model::document::{blocks_view, lemma_prefix_len_mono, runs_fit, Document};

verus! {

/// The style of each character, as the runs give it.
pub open spec fn char_styles(styles: Seq<StyleSpan>) -> Seq<StyleBits>
    decreases styles.len(),
{
    if styles.len() == 0 {
        seq![]
    } else {
        char_styles(styles.drop_last()) + Seq::new(
            styles.last().len as nat,
            |_i: int| styles.last().style,
        )
    }
}

/// `st` with bold (`kind` 0) or italic (any other `kind`) switched.
pub open spec fn flip_style(st: StyleBits, kind: u8) -> StyleBits {
    if kind == 0 {
        StyleBits { is_bold: !st.is_bold, ..st }
    } else {
        StyleBits { is_italic: !st.is_italic, ..st }
    }
}

/// The character styles with the style of each character from `start` up
/// to `end` switched.
pub open spec fn toggled_styles(cs: Seq<StyleBits>, start: int, end: int, kind: u8) -> Seq<
    StyleBits,
> {
    Seq::new(cs.len(), |i: int| if start <= i < end { flip_style(cs[i], kind) } else { cs[i] })
}

/// The runs describe as many characters as they add up to.
pub proof fn lemma_char_styles_len(styles: Seq<StyleSpan>)
    ensures
        char_styles(styles).len() == styles_len(styles),
    decreases styles.len(),
{
    if styles.len() > 0 {
        let d = styles.drop_last();
        lemma_char_styles_len(d);
        lemma_prefix_len_same_drop(styles);
    }
}

/// The sum of all runs but the last is the prefix sum before the last.
proof fn lemma_prefix_len_same_drop(styles: Seq<StyleSpan>)
    requires
        styles.len() > 0,
    ensures
        styles_len(styles.drop_last()) == styles_prefix_len(styles, styles.len() - 1),
{
    lemma_prefix_len_prefix(styles, styles.len() - 1, styles.len() - 1);
}

/// Prefix sums of a prefix of the runs are those of the runs.
proof fn lemma_prefix_len_prefix(styles: Seq<StyleSpan>, n: int, k: int)
    requires
        0 <= k <= n <= styles.len(),
    ensures
        styles_prefix_len(styles.subrange(0, n), k) == styles_prefix_len(styles, k),
    decreases k,
{
    if k > 0 {
        lemma_prefix_len_prefix(styles, n, k - 1);
    }
}

/// The character styles of the first `k + 1` runs extend those of the
/// first `k` by run `k`.
proof fn lemma_char_styles_step(styles: Seq<StyleSpan>, k: int)
    requires
        0 <= k < styles.len(),
    ensures
        char_styles(styles.subrange(0, k + 1)) == char_styles(styles.subrange(0, k)) + Seq::new(
            styles[k].len as nat,
            |_i: int| styles[k].style,
        ),
{
    let s = styles.subrange(0, k + 1);
    assert(s.drop_last() =~= styles.subrange(0, k));
    assert(s.last() == styles[k]);
}

/// The character styles of concatenated runs are concatenated.
proof fn lemma_char_styles_concat(a: Seq<StyleSpan>, b: Seq<StyleSpan>)
    ensures
        char_styles(a + b) == char_styles(a) + char_styles(b),
    decreases b.len(),
{
    if b.len() == 0 {
        assert(a + b =~= a);
        assert(char_styles(a) + char_styles(b) =~= char_styles(a));
    } else {
        lemma_char_styles_concat(a, b.drop_last());
        assert((a + b).drop_last() =~= a + b.drop_last());
        assert((a + b).last() == b.last());
        assert(char_styles(a + b) =~= char_styles(a) + char_styles(b));
    }
}

/// Appending one run appends its characters.
proof fn lemma_char_styles_push(styles: Seq<StyleSpan>, sp: StyleSpan)
    ensures
        char_styles(styles.push(sp)) == char_styles(styles) + Seq::new(
            sp.len as nat,
            |_i: int| sp.style,
        ),
{
    assert(styles.push(sp).drop_last() =~= styles);
}

/// `x` moved into `p..=q`.
pub open spec fn cut(x: int, p: int, q: int) -> int {
    if x < p {
        p
    } else if x > q {
        q
    } else {
        x
    }
}

/// The character styles that toggling `start..end` makes of a run of style
/// `st` over `p..q`: unchanged before the range, switched inside, unchanged
/// after.
pub open spec fn run_pieces(start: int, end: int, kind: u8, p: int, q: int, st: StyleBits) -> Seq<
    StyleBits,
> {
    let a = cut(start, p, q);
    let b = if cut(end, p, q) < a {
        a
    } else {
        cut(end, p, q)
    };
    Seq::new((a - p) as nat, |_i: int| st) + Seq::new((b - a) as nat, |_i: int| flip_style(st, kind))
        + Seq::new((q - b) as nat, |_i: int| st)
}

/// The runs that toggling `start..end` makes of a run of style `st` over
/// `p..q`: the part before the range, the part inside it (with the style
/// switched) and the part after it, leaving out empty parts.
pub open spec fn piece_runs(start: int, end: int, kind: u8, p: int, q: int, st: StyleBits) -> Seq<
    StyleSpan,
> {
    let a = cut(start, p, q);
    let b = if cut(end, p, q) < a {
        a
    } else {
        cut(end, p, q)
    };
    (if a > p {
        seq![StyleSpan { len: (a - p) as usize, style: st }]
    } else {
        seq![]
    }) + (if b > a {
        seq![StyleSpan { len: (b - a) as usize, style: flip_style(st, kind) }]
    } else {
        seq![]
    }) + (if q > b {
        seq![StyleSpan { len: (q - b) as usize, style: st }]
    } else {
        seq![]
    })
}

/// The runs that toggling `start..end` makes of runs `styles[k..]`, the
/// first of which starts at character `p`.
pub open spec fn toggled_runs_from(
    styles: Seq<StyleSpan>,
    start: int,
    end: int,
    kind: u8,
    k: int,
    p: int,
) -> Seq<StyleSpan>
    decreases styles.len() - k,
{
    if k < 0 || k >= styles.len() {
        seq![]
    } else {
        piece_runs(start, end, kind, p, p + styles[k].len, styles[k].style) + toggled_runs_from(
            styles,
            start,
            end,
            kind,
            k + 1,
            p + styles[k].len,
        )
    }
}

/// The runs after toggling `start..end`: each run cut where the range
/// begins and ends, the parts inside switched, empty parts left out.
pub open spec fn toggled_runs(styles: Seq<StyleSpan>, start: int, end: int, kind: u8) -> Seq<
    StyleSpan,
> {
    toggled_runs_from(styles, start, end, kind, 0, 0)
}

/// Toggling a range switches exactly the characters of one run that lie in
/// it.
proof fn lemma_run_pieces(
    cs: Seq<StyleBits>,
    start: int,
    end: int,
    kind: u8,
    p: int,
    q: int,
    st: StyleBits,
)
    requires
        0 <= p <= q <= cs.len(),
        forall|j: int| p <= j < q ==> cs[j] == st,
    ensures
        run_pieces(start, end, kind, p, q, st) == toggled_styles(cs, start, end, kind).subrange(
            p,
            q,
        ),
{
    let t = toggled_styles(cs, start, end, kind);
    let r = run_pieces(start, end, kind, p, q, st);
    assert forall|j: int| 0 <= j < q - p implies r[j] == t.subrange(p, q)[j] by {
        assert(cs[p + j] == st);
    }
    assert(r =~= t.subrange(p, q));
}

/// The characters of run `k` start at the sum `p` of the runs before it
/// and all have its style.
proof fn lemma_run_segment(styles: Seq<StyleSpan>, k: int, p: int)
    requires
        0 <= k < styles.len(),
        p == styles_prefix_len(styles, k),
        char_styles(styles.subrange(0, k)) == char_styles(styles).subrange(0, p),
    ensures
        char_styles(styles.subrange(0, k + 1)) == char_styles(styles).subrange(0, p + styles[k].len),
        forall|j: int|
            p <= j < p + styles[k].len ==> #[trigger] char_styles(styles)[j] == styles[k].style,
{
    let cs = char_styles(styles);
    let q = p + styles[k].len;
    let sub0 = styles.subrange(0, k + 1);
    let sub1 = styles.subrange(k + 1, styles.len() as int);
    lemma_char_styles_step(styles, k);
    lemma_char_styles_len(sub0);
    lemma_prefix_len_prefix(styles, k + 1, k + 1);
    lemma_char_styles_concat(sub0, sub1);
    assert(styles =~= sub0 + sub1);
    assert(cs.subrange(0, q) =~= char_styles(sub0));
    let seg = Seq::new(styles[k].len as nat, |_i: int| styles[k].style);
    assert forall|j: int| p <= j < q implies #[trigger] cs[j] == styles[k].style by {
        assert(cs[j] == cs.subrange(0, q)[j]);
        assert(char_styles(sub0) == cs.subrange(0, p) + seg);
        assert((cs.subrange(0, p) + seg)[j] == seg[j - p]);
    }
}

/// `x` moved into `p..=q` (executable).
fn cut_exec(x: usize, p: usize, q: usize) -> (r: usize)
    requires
        p <= q,
    ensures
        r == cut(x as int, p as int, q as int),
{
    if x < p {
        p
    } else if x > q {
        q
    } else {
        x
    }
}

/// Appends the runs of `run_pieces`, leaving out empty ones.
fn push_pieces(
    r: &mut Vec<StyleSpan>,
    start: usize,
    end: usize,
    kind: u8,
    p: usize,
    q: usize,
    st: StyleBits,
)
    requires
        p <= q,
    ensures
        final(r)@ == old(r)@ + piece_runs(start as int, end as int, kind, p as int, q as int, st),
        char_styles(final(r)@) == char_styles(old(r)@) + run_pieces(
            start as int,
            end as int,
            kind,
            p as int,
            q as int,
            st,
        ),
{
    let a = cut_exec(start, p, q);
    let c = cut_exec(end, p, q);
    let b = if c < a {
        a
    } else {
        c
    };
    let flipped = if kind == 0 {
        StyleBits { is_bold: !st.is_bold, ..st }
    } else {
        StyleBits { is_italic: !st.is_italic, ..st }
    };
    assert(flipped == flip_style(st, kind));
    let ghost r0 = r@;
    let e: Ghost<Seq<StyleBits>> = Ghost(Seq::empty());
    let ghost pa = Seq::new((a - p) as nat, |_i: int| st);
    let ghost pb = Seq::new((b - a) as nat, |_i: int| flipped);
    let ghost pc = Seq::new((q - b) as nat, |_i: int| st);
    if a > p {
        proof {
            lemma_char_styles_push(r@, StyleSpan { len: (a - p) as usize, style: st });
        }
        r.push(StyleSpan { len: a - p, style: st });
    } else {
        assert(pa =~= e@);
    }
    assert(char_styles(r@) =~= char_styles(r0) + pa);
    let ghost r1 = r@;
    if b > a {
        proof {
            lemma_char_styles_push(r@, StyleSpan { len: (b - a) as usize, style: flipped });
        }
        r.push(StyleSpan { len: b - a, style: flipped });
    } else {
        assert(pb =~= e@);
    }
    assert(char_styles(r@) =~= char_styles(r1) + pb);
    let ghost r2 = r@;
    if q > b {
        proof {
            lemma_char_styles_push(r@, StyleSpan { len: (q - b) as usize, style: st });
        }
        r.push(StyleSpan { len: q - b, style: st });
    } else {
        assert(pc =~= e@);
    }
    assert(char_styles(r@) =~= char_styles(r2) + pc);
    assert(run_pieces(start as int, end as int, kind, p as int, q as int, st) =~= pa + pb + pc);
    assert(char_styles(r@) =~= char_styles(r0) + (pa + pb + pc));
    assert(r@ =~= r0 + piece_runs(start as int, end as int, kind, p as int, q as int, st));
}

/// Runs `styles` with the style of characters `start..end` switched: each
/// run is cut where the range begins and ends, and empty pieces are left
/// out.
fn toggle_runs(styles: &Vec<StyleSpan>, start: usize, end: usize, kind: u8) -> (r: Vec<StyleSpan>)
    requires
        styles_len(styles@) <= usize::MAX,
    ensures
        char_styles(r@) == toggled_styles(char_styles(styles@), start as int, end as int, kind),
        r@ == toggled_runs(styles@, start as int, end as int, kind),
{
    let ghost old_cs = char_styles(styles@);
    let ghost target = toggled_styles(old_cs, start as int, end as int, kind);
    proof {
        lemma_char_styles_len(styles@);
    }
    let mut r: Vec<StyleSpan> = Vec::new();
    let mut p: usize = 0;
    let mut k: usize = 0;
    assert(styles@.subrange(0, 0) =~= Seq::<StyleSpan>::empty());
    while k < styles.len()
        invariant
            k <= styles@.len(),
            styles_len(styles@) <= usize::MAX,
            old_cs == char_styles(styles@),
            old_cs.len() == styles_len(styles@),
            target == toggled_styles(old_cs, start as int, end as int, kind),
            p as int == styles_prefix_len(styles@, k as int),
            char_styles(styles@.subrange(0, k as int)).len() == p,
            char_styles(styles@.subrange(0, k as int)) == old_cs.subrange(0, p as int),
            char_styles(r@) == target.subrange(0, p as int),
            r@ + toggled_runs_from(styles@, start as int, end as int, kind, k as int, p as int)
                == toggled_runs(styles@, start as int, end as int, kind),
        decreases styles@.len() - k,
    {
        let sp = styles[k];
        proof {
            lemma_prefix_len_mono(styles@, k + 1, styles@.len() as int);
            lemma_char_styles_step(styles@, k as int);
            lemma_char_styles_len(styles@.subrange(0, k + 1));
            lemma_prefix_len_prefix(styles@, k + 1, k + 1);
            assert(styles@.subrange(0, k + 1).len() == k + 1);
        }
        let q = p + sp.len;
        let ghost r_before = r@;
        push_pieces(&mut r, start, end, kind, p, q, sp.style);
        assert(r_before + toggled_runs_from(styles@, start as int, end as int, kind, k as int, p as int)
            =~= r@ + toggled_runs_from(styles@, start as int, end as int, kind, k + 1, q as int));
        proof {
            lemma_run_segment(styles@, k as int, p as int);
            lemma_run_pieces(old_cs, start as int, end as int, kind, p as int, q as int, sp.style);
            assert(char_styles(r@) =~= target.subrange(0, p as int) + run_pieces(
                start as int,
                end as int,
                kind,
                p as int,
                q as int,
                sp.style,
            ));
            assert(target.subrange(0, q as int) =~= target.subrange(0, p as int)
                + target.subrange(p as int, q as int));
        }
        p = q;
        k = k + 1;
    }
    assert(styles@.subrange(0, k as int) =~= styles@);
    assert(target.subrange(0, p as int) =~= target);
    assert(r@ + toggled_runs_from(styles@, start as int, end as int, kind, k as int, p as int) =~= r@);
    r
}

/// Toggling the same kind of style twice on the same range gives the
/// character styles back.
pub proof fn law_toggle_twice(cs: Seq<StyleBits>, start: int, end: int, kind: u8)
    ensures
        toggled_styles(toggled_styles(cs, start, end, kind), start, end, kind) == cs,
{
    assert(toggled_styles(toggled_styles(cs, start, end, kind), start, end, kind) =~= cs);
}

impl Document {
    /// Switches bold (`style_type` 0) or italic (any other value) on the
    /// characters `start_char..end_char` of block `block_idx` (see
    /// `toggled_styles`); the text stays.  Nothing happens when there is no
    /// such block.
    pub fn toggle_formatting(&mut self, block_idx: usize, start_char: usize, end_char: usize, style_type: u8)
        requires
            runs_fit(old(self).blocks_view(), block_idx as int, 0),
        ensures
            block_idx < old(self).blocks_view().len() ==> ({
                let b = old(self).blocks_view()[block_idx as int];
                let nb = final(self).blocks_view()[block_idx as int];
                &&& final(self).blocks_view() == old(self).blocks_view().update(
                    block_idx as int,
                    BlockView { styles: nb.styles, is_dirty: true, ..b },
                )
                &&& nb.styles == toggled_runs(b.styles, start_char as int, end_char as int, style_type)
                &&& char_styles(nb.styles) == toggled_styles(
                    char_styles(b.styles),
                    start_char as int,
                    end_char as int,
                    style_type,
                )
                &&& styles_len(nb.styles) == styles_len(b.styles)
            }),
            block_idx >= old(self).blocks_view().len() ==> final(self).blocks_view() == old(
                self,
            ).blocks_view(),
            final(self).next_id_value() == old(self).next_id_value(),
    {
        proof {
            self.lemma_view();
        }
        if block_idx >= self.blocks.len() {
            return ;
        }
        let new_styles = toggle_runs(&self.blocks[block_idx].styles, start_char, end_char, style_type);
        proof {
            lemma_char_styles_len(new_styles@);
            lemma_char_styles_len(self.blocks@[block_idx as int].styles@);
        }
        let id = self.blocks[block_idx].id;
        let ty = self.blocks[block_idx].ty;
        let indent = self.blocks[block_idx].indent;
        let text = self.blocks[block_idx].text.clone();
        let ghost before = self.blocks@;
        self.blocks.set(block_idx, Block { id, ty, text, styles: new_styles, indent, is_dirty: true });
        proof {
            self.lemma_view();
            assert(blocks_view(self.blocks@) =~= blocks_view(before).update(
                block_idx as int,
                BlockView { styles: new_styles@, is_dirty: true, ..blocks_view(before)[block_idx as int] },
            ));
        }
    }
}

} // verus!
