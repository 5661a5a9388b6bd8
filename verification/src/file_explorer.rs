//! The file list of the explorer panel: which directory entries are shown,
//! and in which order.
use vstd::prelude::*;

use crate::text::chars_of;

verus! {

broadcast use vstd::seq_lib::group_to_multiset_ensures;

/// A hidden entry: its name starts with a dot.
pub open spec fn is_hidden(name: Seq<char>) -> bool {
    name.len() > 0 && name[0] == '.'
}

/// The entries of `names` that are not hidden, in their order.
pub open spec fn shown_names(names: Seq<String>) -> Seq<String>
    decreases names.len(),
{
    if names.len() == 0 {
        seq![]
    } else if is_hidden(names.last()@) {
        shown_names(names.drop_last())
    } else {
        shown_names(names.drop_last()).push(names.last())
    }
}

/// `a` comes before `b` or equals it in the lexicographic order of
/// characters, the order of `String`.
pub open spec fn name_le(a: Seq<char>, b: Seq<char>) -> bool
    decreases a.len(),
{
    if a.len() == 0 {
        true
    } else if b.len() == 0 {
        false
    } else if a[0] != b[0] {
        (a[0] as int) < (b[0] as int)
    } else {
        name_le(a.drop_first(), b.drop_first())
    }
}

/// The names are in ascending order.
pub open spec fn names_sorted(s: Seq<String>) -> bool {
    forall|i: int, j: int| 0 <= i < j < s.len() ==> name_le(#[trigger] s[i]@, #[trigger] s[j]@)
}

/// Of two names, one comes first.
pub proof fn lemma_name_le_total(a: Seq<char>, b: Seq<char>)
    ensures
        name_le(a, b) || name_le(b, a),
    decreases a.len(),
{
    if a.len() > 0 && b.len() > 0 {
        if a[0] == b[0] {
            lemma_name_le_total(a.drop_first(), b.drop_first());
        } else {
            assert((a[0] as int) != (b[0] as int));
        }
    }
}

/// The order of names is transitive.
pub proof fn lemma_name_le_trans(a: Seq<char>, b: Seq<char>, c: Seq<char>)
    requires
        name_le(a, b),
        name_le(b, c),
    ensures
        name_le(a, c),
    decreases a.len(),
{
    if a.len() > 0 && b.len() > 0 && c.len() > 0 && a[0] == b[0] && b[0] == c[0] {
        lemma_name_le_trans(a.drop_first(), b.drop_first(), c.drop_first());
    }
}

/// Whether `a` comes before `b` or equals it (see `name_le`).
fn name_le_exec(a: &String, b: &String) -> (r: bool)
    ensures
        r == name_le(a@, b@),
{
    let x = chars_of(a.as_str());
    let y = chars_of(b.as_str());
    let mut i: usize = 0;
    assert(x@.subrange(0, x@.len() as int) =~= x@);
    assert(y@.subrange(0, y@.len() as int) =~= y@);
    while i < x.len() && i < y.len() && x[i] == y[i]
        invariant
            x@ == a@,
            y@ == b@,
            i <= x@.len(),
            i <= y@.len(),
            name_le(a@, b@) == name_le(
                x@.subrange(i as int, x@.len() as int),
                y@.subrange(i as int, y@.len() as int),
            ),
        decreases x@.len() - i,
    {
        assert(x@.subrange(i as int, x@.len() as int).drop_first() =~= x@.subrange(
            i + 1,
            x@.len() as int,
        ));
        assert(y@.subrange(i as int, y@.len() as int).drop_first() =~= y@.subrange(
            i + 1,
            y@.len() as int,
        ));
        i = i + 1;
    }
    if i == x.len() {
        true
    } else if i == y.len() {
        false
    } else {
        x[i] < y[i]
    }
}

/// The entries to show: the names that do not start with a dot, in
/// ascending order.
pub fn visible_files(names: &Vec<String>) -> (r: Vec<String>)
    ensures
        names_sorted(r@),
        r@.to_multiset() == shown_names(names@).to_multiset(),
{
    let mut kept: Vec<String> = Vec::new();
    let mut i: usize = 0;
    while i < names.len()
        invariant
            i <= names@.len(),
            kept@ == shown_names(names@.subrange(0, i as int)),
        decreases names@.len() - i,
    {
        assert(names@.subrange(0, i + 1).drop_last() =~= names@.subrange(0, i as int));
        let c = chars_of(names[i].as_str());
        if !(c.len() > 0 && c[0] == '.') {
            kept.push(names[i].clone());
        }
        i = i + 1;
    }
    assert(names@.subrange(0, names@.len() as int) =~= names@);
    let mut out: Vec<String> = Vec::new();
    let mut k: usize = 0;
    while k < kept.len()
        invariant
            k <= kept@.len(),
            names_sorted(out@),
            out@.to_multiset() == kept@.subrange(0, k as int).to_multiset(),
        decreases kept@.len() - k,
    {
        let x = kept[k].clone();
        let mut p: usize = 0;
        while p < out.len() && name_le_exec(&out[p], &x)
            invariant
                p <= out@.len(),
                forall|j: int| 0 <= j < p ==> name_le(#[trigger] out@[j]@, x@),
            decreases out@.len() - p,
        {
            p = p + 1;
        }
        let ghost before = out@;
        proof {
            assert forall|j: int| p <= j < before.len() implies name_le(x@, #[trigger] before[j]@) by {
                lemma_name_le_total(before[p as int]@, x@);
                if j > p {
                    lemma_name_le_trans(x@, before[p as int]@, before[j]@);
                }
            }
        }
        out.insert(p, x);
        proof {
            assert forall|a: int, b: int| 0 <= a < b < out@.len() implies name_le(
                #[trigger] out@[a]@,
                #[trigger] out@[b]@,
            ) by {
                if b < p {
                    assert(out@[a] == before[a]);
                    assert(out@[b] == before[b]);
                } else if a < p && b == p {
                } else if a < p && b > p {
                    assert(out@[b] == before[b - 1]);
                } else if a == p {
                    assert(out@[b] == before[b - 1]);
                } else {
                    assert(out@[a] == before[a - 1]);
                    assert(out@[b] == before[b - 1]);
                }
            }
            assert(kept@.subrange(0, k + 1) =~= kept@.subrange(0, k as int).push(x));
            vstd::seq_lib::to_multiset_insert(before, p as int, x);
        }
        k = k + 1;
    }
    assert(kept@.subrange(0, kept@.len() as int) =~= kept@);
    out
}

/// The entry at row `item_id` of the list, if there is one.
pub fn selected_file(files: &Vec<String>, item_id: usize) -> (r: Option<String>)
    ensures
        r == if item_id < files@.len() {
            Some(files@[item_id as int])
        } else {
            None::<String>
        },
{
    if item_id < files.len() {
        Some(files[item_id].clone())
    } else {
        None
    }
}

/// The shown entries are the names without a leading dot, each as often as
/// it occurs, in ascending order: a name occurs among them exactly as often
/// as among the names when it is not hidden, and not at all otherwise.
pub proof fn law_shown_names_count(names: Seq<String>, n: String)
    ensures
        shown_names(names).to_multiset().count(n) == if is_hidden(n@) {
            0
        } else {
            names.to_multiset().count(n)
        },
    decreases names.len(),
{
    if names.len() > 0 {
        law_shown_names_count(names.drop_last(), n);
        assert(names.drop_last().push(names.last()) =~= names);
    }
}

} // verus!
