//! Which walked entries a tree shows, and the order in which it lists them.
use vstd::prelude::*;
use crate::entry::{
    Entry, entry_lt, text_lt, path_lt, lemma_entry_lt_asym, lemma_entry_lt_trans, lemma_path_lt_prefix,
    lemma_path_lt_common, lemma_text_lt_from_asym, lemma_entry_lt_total, named_components,
};

verus! {

/// The name of the version-control directory left out at the root.
pub open spec fn git_dir_name() -> Seq<char> {
    seq!['.', 'g', 'i', 't']
}

/// The name of the placeholder files left out everywhere.
pub open spec fn keep_file_name() -> Seq<char> {
    seq!['.', 'g', 'i', 't', 'k', 'e', 'e', 'p']
}

/// Whether a walked entry is shown: within the depth bound, not the
/// version-control directory at the root nor anything below it, and not a
/// placeholder file.
pub open spec fn shown(e: Entry, max_depth: nat) -> bool {
    &&& e.depth() <= max_depth
    &&& !(e.depth() >= 1 && e.path()[0] == git_dir_name())
    &&& !(!e.is_dir && e.depth() >= 1 && e.name() == keep_file_name())
}

/// Where `x` goes in `s`: before the first entry from `i` on that it
/// precedes, else at the end.
pub open spec fn insert_pos(x: Entry, s: Seq<Entry>, i: int) -> int
    decreases s.len() - i,
{
    if i >= s.len() {
        s.len() as int
    } else if entry_lt(x, s[i]) {
        i
    } else {
        insert_pos(x, s, i + 1)
    }
}

/// `s` with `x` placed in the listing order.
pub open spec fn insert_in_order(x: Entry, s: Seq<Entry>) -> Seq<Entry> {
    s.insert(insert_pos(x, s, 0), x)
}

/// The shown entries of a walk, in the listing order.
pub open spec fn listing(s: Seq<Entry>, max_depth: nat) -> Seq<Entry>
    decreases s.len(),
{
    if s.len() == 0 {
        s
    } else {
        let r = listing(s.drop_first(), max_depth);
        if shown(s[0], max_depth) {
            insert_in_order(s[0], r)
        } else {
            r
        }
    }
}

/// No entry comes after one that it precedes in the listing order.
pub open spec fn is_ordered(s: Seq<Entry>) -> bool {
    forall|i: int, j: int| 0 <= i < j < s.len() ==> !entry_lt(#[trigger] s[j], #[trigger] s[i])
}

proof fn lemma_insert_pos(x: Entry, s: Seq<Entry>, i: int)
    requires
        0 <= i <= s.len(),
    ensures
        i <= insert_pos(x, s, i) <= s.len(),
        forall|q: int| i <= q < insert_pos(x, s, i) ==> !entry_lt(x, #[trigger] s[q]),
        insert_pos(x, s, i) < s.len() ==> entry_lt(x, s[insert_pos(x, s, i)]),
    decreases s.len() - i,
{
    if i < s.len() && !entry_lt(x, s[i]) {
        lemma_insert_pos(x, s, i + 1);
    }
}

proof fn lemma_insert_ordered(x: Entry, s: Seq<Entry>)
    requires
        is_ordered(s),
    ensures
        is_ordered(insert_in_order(x, s)),
{
    lemma_insert_pos(x, s, 0);
    let p = insert_pos(x, s, 0);
    let t = insert_in_order(x, s);
    assert forall|i: int, j: int| 0 <= i < j < t.len() implies !entry_lt(#[trigger] t[j], #[trigger] t[i]) by {
        if i == p {
            if entry_lt(t[j], x) {
                lemma_entry_lt_asym(x, s[p]);
                if j - 1 > p {
                    lemma_entry_lt_trans(t[j], x, s[p]);
                }
            }
        } else if j == p {
            if entry_lt(x, t[i]) {
                assert(!entry_lt(x, s[i]));
            }
        } else {
            let (si, sj) = (if i < p { i } else { i - 1 }, if j < p { j } else { j - 1 });
            assert(t[i] == s[si] && t[j] == s[sj]);
        }
    }
}

/// The listing is in order.
pub proof fn lemma_listing_ordered(s: Seq<Entry>, max_depth: nat)
    ensures
        is_ordered(listing(s, max_depth)),
    decreases s.len(),
{
    if s.len() > 0 {
        lemma_listing_ordered(s.drop_first(), max_depth);
        if shown(s[0], max_depth) {
            lemma_insert_ordered(s[0], listing(s.drop_first(), max_depth));
        }
    }
}

/// Every listed entry is a shown entry of the walk.
pub proof fn lemma_listing_shown(s: Seq<Entry>, max_depth: nat)
    ensures
        forall|k: int| 0 <= k < listing(s, max_depth).len() ==> {
            &&& shown(#[trigger] listing(s, max_depth)[k], max_depth)
            &&& s.contains(listing(s, max_depth)[k])
        },
    decreases s.len(),
{
    if s.len() > 0 {
        let r = listing(s.drop_first(), max_depth);
        lemma_listing_shown(s.drop_first(), max_depth);
        let l = listing(s, max_depth);
        assert forall|k: int| 0 <= k < l.len() implies shown(#[trigger] l[k], max_depth) && s.contains(l[k]) by {
            if shown(s[0], max_depth) {
                lemma_insert_pos(s[0], r, 0);
                let p = insert_pos(s[0], r, 0);
                if k == p {
                    assert(s[0] == l[k]);
                } else {
                    let q = if k < p { k } else { k - 1 };
                    assert(l[k] == r[q]);
                    let w = choose|w: int| 0 <= w < s.drop_first().len() && s.drop_first()[w] == r[q];
                    assert(s[w + 1] == l[k]);
                }
            } else {
                let w = choose|w: int| 0 <= w < s.drop_first().len() && s.drop_first()[w] == r[k];
                assert(s[w + 1] == l[k]);
            }
        }
    }
}

/// Every shown entry of the walk is listed.
pub proof fn lemma_listing_complete(s: Seq<Entry>, max_depth: nat, x: Entry)
    requires
        s.contains(x),
        shown(x, max_depth),
    ensures
        listing(s, max_depth).contains(x),
    decreases s.len(),
{
    let r = listing(s.drop_first(), max_depth);
    if x == s[0] {
        lemma_insert_pos(x, r, 0);
        assert(listing(s, max_depth)[insert_pos(x, r, 0)] == x);
    } else {
        let w = choose|w: int| 0 <= w < s.len() && s[w] == x;
        assert(s.drop_first()[w - 1] == x);
        lemma_listing_complete(s.drop_first(), max_depth, x);
        let k = choose|k: int| 0 <= k < r.len() && r[k] == x;
        if shown(s[0], max_depth) {
            lemma_insert_pos(s[0], r, 0);
            let p = insert_pos(s[0], r, 0);
            if k < p {
                assert(listing(s, max_depth)[k] == x);
            } else {
                assert(listing(s, max_depth)[k + 1] == x);
            }
        }
    }
}

/// A walk that meets each path of one kind once, every component a
/// non-empty name: what a walk of a real directory gives.
pub open spec fn distinct_walk(s: Seq<Entry>) -> bool {
    &&& forall|i: int, j: int| 0 <= i < j < s.len() ==> (#[trigger] s[i]).path() != (#[trigger] s[j]).path()
        || s[i].is_dir != s[j].is_dir
    &&& forall|i: int| 0 <= i < s.len() ==> named_components(#[trigger] s[i])
}

/// Strictly ascending in the listing order.
pub open spec fn is_strictly_ordered(s: Seq<Entry>) -> bool {
    forall|i: int, j: int| 0 <= i < j < s.len() ==> entry_lt(#[trigger] s[i], #[trigger] s[j])
}

proof fn lemma_listing_no_repeat(s: Seq<Entry>, max_depth: nat)
    requires
        distinct_walk(s),
    ensures
        forall|i: int, j: int| 0 <= i < j < listing(s, max_depth).len() ==> #[trigger] listing(s, max_depth)[i]
            != #[trigger] listing(s, max_depth)[j],
    decreases s.len(),
{
    if s.len() > 0 {
        let t = s.drop_first();
        assert forall|i: int, j: int| 0 <= i < j < t.len() implies (#[trigger] t[i]).path() != (#[trigger] t[j]).path()
            || t[i].is_dir != t[j].is_dir by {
            assert(t[i] == s[i + 1] && t[j] == s[j + 1]);
        }
        assert forall|i: int| 0 <= i < t.len() implies named_components(#[trigger] t[i]) by {
            assert(t[i] == s[i + 1]);
        }
        lemma_listing_no_repeat(t, max_depth);
        let r = listing(t, max_depth);
        if shown(s[0], max_depth) {
            lemma_listing_shown(t, max_depth);
            lemma_insert_pos(s[0], r, 0);
            let p = insert_pos(s[0], r, 0);
            let o = listing(s, max_depth);
            assert forall|k: int| 0 <= k < r.len() implies r[k] != s[0] by {
                assert(t.contains(r[k]));
                let w = choose|w: int| 0 <= w < t.len() && t[w] == r[k];
                assert(s[w + 1] == r[k]);
            }
            assert forall|i: int, j: int| 0 <= i < j < o.len() implies #[trigger] o[i] != #[trigger] o[j] by {
                let ri = if i < p { i } else { i - 1 };
                let rj = if j < p { j } else { j - 1 };
                if i != p && j != p {
                    assert(o[i] == r[ri] && o[j] == r[rj]);
                } else if i == p {
                    assert(o[j] == r[rj]);
                } else {
                    assert(o[i] == r[ri]);
                }
            }
        }
    }
}

/// The listing of a walk that meets each path once is strictly ascending.
pub proof fn lemma_listing_strict(s: Seq<Entry>, max_depth: nat)
    requires
        distinct_walk(s),
    ensures
        is_strictly_ordered(listing(s, max_depth)),
{
    let o = listing(s, max_depth);
    lemma_listing_ordered(s, max_depth);
    lemma_listing_no_repeat(s, max_depth);
    lemma_listing_shown(s, max_depth);
    assert forall|i: int, j: int| 0 <= i < j < o.len() implies entry_lt(#[trigger] o[i], #[trigger] o[j]) by {
        let a = choose|a: int| 0 <= a < s.len() && s[a] == o[i];
        let b = choose|b: int| 0 <= b < s.len() && s[b] == o[j];
        assert(o[i] != o[j]);
        if a < b {
            assert(s[a].path() != s[b].path() || s[a].is_dir != s[b].is_dir);
        } else {
            assert(s[b].path() != s[a].path() || s[b].is_dir != s[a].is_dir);
        }
        lemma_entry_lt_total(o[i], o[j]);
    }
}

/// Two strictly ascending sequences with the same entries are equal.
pub proof fn lemma_strictly_ordered_unique(a: Seq<Entry>, b: Seq<Entry>)
    requires
        is_strictly_ordered(a),
        is_strictly_ordered(b),
        forall|x: Entry| a.contains(x) <==> b.contains(x),
    ensures
        a == b,
    decreases a.len(),
{
    if a.len() == 0 {
        if b.len() > 0 {
            assert(b.contains(b[0]));
        }
        assert(a =~= b);
    } else {
        assert(a.contains(a[0]));
        let k = choose|k: int| 0 <= k < b.len() && b[k] == a[0];
        assert(b.contains(b[0]));
        let m = choose|m: int| 0 <= m < a.len() && a[m] == b[0];
        if k > 0 {
            assert(entry_lt(b[0], a[0]));
            if m > 0 {
                lemma_entry_lt_asym(a[0], b[0]);
            }
            lemma_entry_lt_asym(b[0], b[0]);
        }
        let (ta, tb) = (a.drop_first(), b.drop_first());
        assert forall|x: Entry| ta.contains(x) <==> tb.contains(x) by {
            if ta.contains(x) {
                let i = choose|i: int| 0 <= i < ta.len() && ta[i] == x;
                assert(a.contains(x) && a[i + 1] == x);
                assert(entry_lt(a[0], a[i + 1]));
                let j = choose|j: int| 0 <= j < b.len() && b[j] == x;
                if j == 0 {
                    lemma_entry_lt_asym(a[0], x);
                }
                assert(tb[j - 1] == x);
            }
            if tb.contains(x) {
                let i = choose|i: int| 0 <= i < tb.len() && tb[i] == x;
                assert(b.contains(x) && b[i + 1] == x);
                assert(entry_lt(b[0], b[i + 1]));
                let j = choose|j: int| 0 <= j < a.len() && a[j] == x;
                if j == 0 {
                    lemma_entry_lt_asym(b[0], x);
                }
                assert(ta[j - 1] == x);
            }
        }
        assert forall|i: int, j: int| 0 <= i < j < ta.len() implies entry_lt(#[trigger] ta[i], #[trigger] ta[j]) by {
            assert(ta[i] == a[i + 1] && ta[j] == a[j + 1]);
        }
        assert forall|i: int, j: int| 0 <= i < j < tb.len() implies entry_lt(#[trigger] tb[i], #[trigger] tb[j]) by {
            assert(tb[i] == b[i + 1] && tb[j] == b[j + 1]);
        }
        lemma_strictly_ordered_unique(ta, tb);
        assert(a =~= seq![a[0]] + ta);
        assert(b =~= seq![b[0]] + tb);
    }
}

/// Two walks that meet the same entries, each once, in any order, give the
/// same listing.
pub proof fn lemma_listing_ignores_walk_order(s1: Seq<Entry>, s2: Seq<Entry>, max_depth: nat)
    requires
        distinct_walk(s1),
        distinct_walk(s2),
        forall|x: Entry| s1.contains(x) <==> s2.contains(x),
    ensures
        listing(s1, max_depth) == listing(s2, max_depth),
{
    let (o1, o2) = (listing(s1, max_depth), listing(s2, max_depth));
    lemma_listing_strict(s1, max_depth);
    lemma_listing_strict(s2, max_depth);
    lemma_listing_shown(s1, max_depth);
    lemma_listing_shown(s2, max_depth);
    assert forall|x: Entry| o1.contains(x) <==> o2.contains(x) by {
        if o1.contains(x) {
            let k = choose|k: int| 0 <= k < o1.len() && o1[k] == x;
            lemma_listing_complete(s2, max_depth, x);
        }
        if o2.contains(x) {
            let k = choose|k: int| 0 <= k < o2.len() && o2[k] == x;
            lemma_listing_complete(s1, max_depth, x);
        }
    }
    lemma_strictly_ordered_unique(o1, o2);
}

/// A subdirectory's group comes after the group of the directory holding it.
pub proof fn lemma_subdir_after(d: Entry)
    requires
        d.is_dir,
        d.depth() > 0,
    ensures
        path_lt(d.parent(), d.group()),
{
    lemma_path_lt_prefix(d.parent(), d.path(), 0);
}

/// Within one directory, the listing puts all files before all
/// subdirectories, and each of the two kinds in ascending order of name.
pub proof fn lemma_listing_files_first(s: Seq<Entry>, max_depth: nat, i: int, j: int)
    requires
        0 <= i < j < listing(s, max_depth).len(),
        listing(s, max_depth)[i].depth() > 0,
        listing(s, max_depth)[j].depth() > 0,
        listing(s, max_depth)[i].parent() == listing(s, max_depth)[j].parent(),
    ensures
        !(listing(s, max_depth)[i].is_dir && !listing(s, max_depth)[j].is_dir),
        listing(s, max_depth)[i].is_dir == listing(s, max_depth)[j].is_dir ==> !text_lt(
            listing(s, max_depth)[j].name(),
            listing(s, max_depth)[i].name(),
        ),
{
    let o = listing(s, max_depth);
    lemma_listing_ordered(s, max_depth);
    let (a, b) = (o[i], o[j]);
    assert(!entry_lt(b, a));
    if a.is_dir && !b.is_dir {
        lemma_subdir_after(a);
    }
    if a.is_dir && b.is_dir && text_lt(b.name(), a.name()) {
        let k = b.parent().len() as int;
        lemma_text_lt_from_asym(b.name(), a.name(), 0);
        assert(b.path()[k] == b.name() && a.path()[k] == a.name());
        assert forall|m: int| 0 <= m < k implies b.path()[m] == a.path()[m] by {
            assert(b.parent()[m] == a.parent()[m]);
        }
        lemma_path_lt_common(b.path(), a.path(), k);
    }
}

/// Whether a walked entry is shown under the depth bound.
pub fn is_shown(e: &Entry, max_depth: usize) -> (r: bool)
    ensures
        r == shown(*e, max_depth as nat),
{
    let n = e.components.len();
    if n > max_depth {
        return false;
    }
    if n == 0 {
        return true;
    }
    let git = String::from_str(".git");
    let keep = String::from_str(".gitkeep");
    proof {
        reveal_strlit(".git");
        reveal_strlit(".gitkeep");
        assert(git@ =~= git_dir_name());
        assert(keep@ =~= keep_file_name());
        assert(e.path()[0] == e.components@[0]@);
        assert(e.name() == e.components@[n - 1]@);
    }
    if e.components[0] == git {
        return false;
    }
    !(!e.is_dir && e.components[n - 1] == keep)
}

/// Orders the shown entries of a walk for display: grouped by the
/// directory they belong to, directories before files, then by name.
pub fn order_entries(walked: Vec<Entry>, max_depth: usize) -> (r: Vec<Entry>)
    ensures
        r@ == listing(walked@, max_depth as nat),
{
    let ghost s = walked@;
    let mut rest = walked;
    let mut out: Vec<Entry> = Vec::new();
    assert(s.subrange(s.len() as int, s.len() as int) =~= Seq::<Entry>::empty());
    while rest.len() > 0
        invariant
            rest@ == s.subrange(0, rest@.len() as int),
            rest@.len() <= s.len(),
            out@ == listing(s.subrange(rest@.len() as int, s.len() as int), max_depth as nat),
        decreases rest@.len(),
    {
        let ghost k = rest@.len() - 1;
        let x = match rest.pop() {
            Some(x) => x,
            None => { return out; },
        };
        assert(s.subrange(k, s.len() as int).drop_first() =~= s.subrange(k + 1, s.len() as int));
        assert(s.subrange(k, s.len() as int)[0] == x);
        if is_shown(&x, max_depth) {
            let mut i: usize = 0;
            while i < out.len() && !x.less(&out[i])
                invariant
                    i <= out@.len(),
                    insert_pos(x, out@, 0) == insert_pos(x, out@, i as int),
                decreases out@.len() - i,
            {
                i = i + 1;
            }
            out.insert(i, x);
        }
    }
    assert(s.subrange(0, s.len() as int) =~= s);
    out
}

} // verus!
