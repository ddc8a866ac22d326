//! Turns an ordered listing into the lines of a tree diagram, in one pass
//! from the last line to the first.
use vstd::prelude::*;
use crate::entry::{
    Entry, entry_lt, path_lt, text_lt, prefix_eq, lemma_path_lt_prefix, lemma_prefix_split, lemma_extension_before,
};
use crate::listing::{is_ordered, lemma_subdir_after};

verus! {

/// Connector of an entry that is the last child of its directory.
pub open spec fn elbow_glyph() -> Seq<char> {
    seq!['└', '─', '─', ' ']
}

/// Connector of an entry with later siblings.
pub open spec fn tee_glyph() -> Seq<char> {
    seq!['├', '─', '─', ' ']
}

/// Indentation segment under a directory that still has siblings to come.
pub open spec fn bar_glyph() -> Seq<char> {
    seq!['│', '\u{a0}', '\u{a0}', ' ']
}

/// Indentation segment under a directory whose last child is drawn.
pub open spec fn blank_glyph() -> Seq<char> {
    seq![' ', '\u{a0}', '\u{a0}', ' ']
}

/// Whether `e` lies directly in the directory at path `p`.
pub open spec fn child_of(e: Entry, p: Seq<Seq<char>>) -> bool {
    e.depth() > 0 && e.parent() == p
}

/// Whether line `m` is the directory at path `p`.
pub open spec fn dir_at(o: Seq<Entry>, m: int, p: Seq<Seq<char>>) -> bool {
    o[m].is_dir && o[m].path() == p
}

/// Some line from `lo` on is a child of `p`, and no line from `k` up to
/// that child is `p` itself.
pub open spec fn pending_from(o: Seq<Entry>, k: int, lo: int, p: Seq<Seq<char>>) -> bool {
    exists|j: int|
        lo <= j < o.len() && #[trigger] child_of(o[j], p) && forall|m: int|
            k <= m < j ==> !dir_at(o, m, p)
}

/// Whether directory `p` is still open at line `i`: a line below `i` is a
/// child of `p`, and `p`'s own line is not at `i` or between.
pub open spec fn open_at(o: Seq<Entry>, i: int, p: Seq<Seq<char>>) -> bool {
    pending_from(o, i, i + 1, p)
}

/// Whether line `i` is the last child of its directory: drawn with the elbow.
pub open spec fn is_last_child(o: Seq<Entry>, i: int) -> bool {
    !open_at(o, i, o[i].parent())
}

/// Whether line `i` carries a continuation bar at level `l`: a directory
/// whose children sit at level `l` is open there.
pub open spec fn bar_at(o: Seq<Entry>, i: int, l: int) -> bool {
    exists|p: Seq<Seq<char>>| #[trigger] open_at(o, i, p) && p.len() + 1 == l
}

/// The indentation of line `i` for levels `1` up to `n - 1`.
pub open spec fn indent(o: Seq<Entry>, i: int, n: int) -> Seq<char>
    decreases n,
{
    if n <= 1 {
        Seq::empty()
    } else {
        indent(o, i, n - 1) + if bar_at(o, i, n - 1) {
            bar_glyph()
        } else {
            blank_glyph()
        }
    }
}

/// The escape sequence that starts the directory style.
pub open spec fn style_start() -> Seq<char> {
    seq!['\u{1b}', '[', '3', '4', 'm']
}

/// The escape sequence that ends a style.
pub open spec fn style_end() -> Seq<char> {
    seq!['\u{1b}', '[', '0', 'm']
}

/// A name as shown: directories wrapped in the directory style when
/// colour is on.
pub open spec fn styled(name: Seq<char>, is_dir: bool, color: bool) -> Seq<char> {
    if color && is_dir {
        style_start() + name + style_end()
    } else {
        name
    }
}

/// Line `i` of the diagram, newline included: the root shows `label`,
/// any other entry its indentation, connector and name.
pub open spec fn line(o: Seq<Entry>, i: int, label: Seq<char>, color: bool) -> Seq<char> {
    if o[i].depth() == 0 {
        styled(label, true, color) + seq!['\n']
    } else {
        indent(o, i, o[i].depth() as int) + (if is_last_child(o, i) {
            elbow_glyph()
        } else {
            tee_glyph()
        }) + styled(o[i].name(), o[i].is_dir, color) + seq!['\n']
    }
}

/// The first `k` lines of the diagram, joined.
pub open spec fn text_upto(o: Seq<Entry>, label: Seq<char>, color: bool, k: int) -> Seq<char>
    decreases k,
{
    if k <= 0 {
        Seq::empty()
    } else {
        text_upto(o, label, color, k - 1) + line(o, k - 1, label, color)
    }
}

/// The whole diagram of a listing.
pub open spec fn tree_text(o: Seq<Entry>, label: Seq<char>, color: bool) -> Seq<char> {
    text_upto(o, label, color, o.len() as int)
}

/// Directory paths that the recorded children in `par` lie in.
pub open spec fn open_paths(o: Seq<Entry>, par: Seq<usize>) -> Set<Seq<Seq<char>>> {
    Set::new(|p: Seq<Seq<char>>| exists|q: int| 0 <= q < par.len() && #[trigger] o[par[q] as int].parent() == p)
}

/// Every recorded index is a line below the root.
pub open spec fn valid_record(o: Seq<Entry>, par: Seq<usize>) -> bool {
    forall|q: int| 0 <= q < par.len() ==> #[trigger] par[q] < o.len() && o[par[q] as int].depth() > 0
}

/// In an ordered listing, a line is drawn with the elbow exactly when no
/// later line lies in the same directory.
pub proof fn lemma_last_child_is_last(o: Seq<Entry>, i: int)
    requires
        is_ordered(o),
        0 <= i < o.len(),
        o[i].depth() > 0,
    ensures
        is_last_child(o, i) <==> forall|j: int| i < j < o.len() ==> !#[trigger] child_of(o[j], o[i].parent()),
{
    let p = o[i].parent();
    if exists|j: int| i < j < o.len() && #[trigger] child_of(o[j], p) {
        let j = choose|j: int| i < j < o.len() && #[trigger] child_of(o[j], p);
        assert forall|m: int| i <= m < j implies !dir_at(o, m, p) by {
            if dir_at(o, m, p) {
                assert(o[i].path().len() == p.len() + 1);
                if o[i].is_dir {
                    lemma_subdir_after(o[i]);
                }
                assert(entry_lt(o[m], o[i]));
            }
        }
        assert(open_at(o, i, p));
    }
}

/// In an ordered listing, of the lines that lie directly in one directory,
/// exactly one is drawn with the elbow.
pub proof fn lemma_one_last_child(o: Seq<Entry>, p: Seq<Seq<char>>, j: int)
    requires
        is_ordered(o),
        0 <= j < o.len(),
        child_of(o[j], p),
    ensures
        exists|i: int|
            0 <= i < o.len() && #[trigger] child_of(o[i], p) && is_last_child(o, i) && forall|k: int|
                0 <= k < o.len() && k != i && #[trigger] child_of(o[k], p) ==> !is_last_child(o, k),
    decreases o.len() - j,
{
    if exists|k: int| j < k < o.len() && #[trigger] child_of(o[k], p) {
        let k = choose|k: int| j < k < o.len() && #[trigger] child_of(o[k], p);
        lemma_one_last_child(o, p, k);
    } else {
        lemma_last_child_is_last(o, j);
        assert forall|k: int| 0 <= k < o.len() && k != j && #[trigger] child_of(o[k], p) implies !is_last_child(o, k) by {
            lemma_last_child_is_last(o, k);
            assert(child_of(o[j], o[k].parent()));
        }
    }
}

/// The indentation of a line below the root has one four-column segment
/// per level from 1 to its depth less one, and the segment at level `l` is
/// the bar exactly when a directory whose children sit at level `l` is
/// still open.
pub proof fn lemma_indent_shape(o: Seq<Entry>, i: int, n: int)
    requires
        n >= 1,
    ensures
        indent(o, i, n).len() == 4 * (n - 1),
        forall|l: int| 1 <= l < n ==> #[trigger] indent(o, i, n).subrange(4 * (l - 1), 4 * l) == if bar_at(o, i, l) {
            bar_glyph()
        } else {
            blank_glyph()
        },
        forall|k: int| 0 <= k < indent(o, i, n).len() ==> #[trigger] indent(o, i, n)[k] != '\n',
    decreases n,
{
    if n > 1 {
        lemma_indent_shape(o, i, n - 1);
        let prev = indent(o, i, n - 1);
        let cur = indent(o, i, n);
        assert forall|l: int| 1 <= l < n implies #[trigger] cur.subrange(4 * (l - 1), 4 * l) == if bar_at(o, i, l) {
            bar_glyph()
        } else {
            blank_glyph()
        } by {
            if l < n - 1 {
                assert(cur.subrange(4 * (l - 1), 4 * l) =~= prev.subrange(4 * (l - 1), 4 * l));
            } else {
                assert(cur.subrange(4 * (l - 1), 4 * l) =~= if bar_at(o, i, l) {
                    bar_glyph()
                } else {
                    blank_glyph()
                });
            }
        }
        assert forall|k: int| 0 <= k < cur.len() implies #[trigger] cur[k] != '\n' by {
            if k >= prev.len() {
                assert(cur[k] == (if bar_at(o, i, n - 1) { bar_glyph() } else { blank_glyph() })[k - prev.len()]);
            } else {
                assert(cur[k] == prev[k]);
            }
        }
    }
}

/// Every line below the root has the directory that holds it on a line
/// of its own.
pub open spec fn parents_listed(o: Seq<Entry>) -> bool {
    forall|j: int| 0 <= j < o.len() && (#[trigger] o[j]).depth() > 0 ==> exists|m: int|
        0 <= m < o.len() && dir_at(o, m, o[j].parent())
}

/// In an ordered listing where every directory has a line of its own,
/// line `i` carries the bar at level `l` exactly when a later line lies
/// directly in the directory that holds `i`'s ancestor at level `l`: that
/// ancestor still has siblings to come below.
pub proof fn lemma_bar_marks_open_ancestor(o: Seq<Entry>, i: int, l: int)
    requires
        is_ordered(o),
        parents_listed(o),
        0 <= i < o.len(),
        1 <= l < o[i].depth(),
    ensures
        bar_at(o, i, l) <==> exists|j: int| i < j < o.len() && #[trigger] child_of(o[j], o[i].path().subrange(0, l - 1)),
{
    let q = o[i].path().subrange(0, l - 1);
    let g = o[i].group();
    assert(g.len() >= l);
    assert forall|k: int| 0 <= k < g.len() implies g[k] == o[i].path()[k] by {}
    if exists|j: int| i < j < o.len() && #[trigger] child_of(o[j], q) {
        let j = choose|j: int| i < j < o.len() && #[trigger] child_of(o[j], q);
        assert forall|m: int| i <= m < j implies !dir_at(o, m, q) by {
            if dir_at(o, m, q) {
                lemma_path_lt_prefix(q, g, 0);
                assert(entry_lt(o[m], o[i]));
            }
        }
        assert(open_at(o, i, q));
    }
    if bar_at(o, i, l) {
        let p = choose|p: Seq<Seq<char>>| #[trigger] open_at(o, i, p) && p.len() + 1 == l;
        let j = choose|j: int| i + 1 <= j < o.len() && #[trigger] child_of(o[j], p) && forall|m: int|
            i <= m < j ==> !dir_at(o, m, p);
        let m = choose|m: int| 0 <= m < o.len() && dir_at(o, m, o[j].parent());
        let gj = o[j].group();
        if o[j].is_dir {
            lemma_subdir_after(o[j]);
        }
        assert(entry_lt(o[m], o[j]));
        assert(m < i);
        assert(!entry_lt(o[i], o[m]));
        assert(!path_lt(g, p));
        assert(!entry_lt(o[j], o[i]));
        assert(gj.subrange(0, p.len() as int) =~= p);
        lemma_prefix_split(g, p, 0);
        if exists|k0: int|
            0 <= k0 < p.len() && k0 < g.len() && (forall|k: int| 0 <= k < k0 ==> g[k] == p[k])
                && #[trigger] text_lt(p[k0], g[k0]) {
            let k0 = choose|k0: int|
                0 <= k0 < p.len() && k0 < g.len() && (forall|k: int| 0 <= k < k0 ==> g[k] == p[k])
                    && #[trigger] text_lt(p[k0], g[k0]);
            lemma_extension_before(gj, p, g, k0);
        }
        assert(g.subrange(0, p.len() as int) == p);
        assert(p =~= q) by {
            assert forall|k: int| 0 <= k < p.len() implies p[k] == q[k] by {
                assert(p[k] == g.subrange(0, p.len() as int)[k]);
            }
        }
        assert(child_of(o[j], q));
    }
}

/// Number of newline characters in a text.
pub open spec fn newline_count(s: Seq<char>) -> nat
    decreases s.len(),
{
    if s.len() == 0 {
        0
    } else {
        newline_count(s.drop_last()) + if s.last() == '\n' {
            1nat
        } else {
            0nat
        }
    }
}

proof fn lemma_newline_count_add(a: Seq<char>, b: Seq<char>)
    ensures
        newline_count(a + b) == newline_count(a) + newline_count(b),
    decreases b.len(),
{
    if b.len() == 0 {
        assert(a + b =~= a);
    } else {
        lemma_newline_count_add(a, b.drop_last());
        assert((a + b).drop_last() =~= a + b.drop_last());
    }
}

proof fn lemma_newline_count_none(a: Seq<char>)
    requires
        forall|k: int| 0 <= k < a.len() ==> a[k] != '\n',
    ensures
        newline_count(a) == 0,
    decreases a.len(),
{
    if a.len() > 0 {
        lemma_newline_count_none(a.drop_last());
    }
}

/// Whether a text holds no newline.
pub open spec fn single_line(s: Seq<char>) -> bool {
    forall|k: int| 0 <= k < s.len() ==> s[k] != '\n'
}

/// Where neither the root's label nor any name holds a newline, the
/// diagram has exactly one line per listed entry.
pub proof fn lemma_line_count(o: Seq<Entry>, label: Seq<char>, color: bool)
    requires
        single_line(label),
        forall|i: int| 0 <= i < o.len() ==> single_line(#[trigger] o[i].name()),
    ensures
        newline_count(tree_text(o, label, color)) == o.len(),
{
    lemma_text_lines(o, label, color, o.len() as int);
}

proof fn lemma_text_lines(o: Seq<Entry>, label: Seq<char>, color: bool, k: int)
    requires
        0 <= k <= o.len(),
        single_line(label),
        forall|i: int| 0 <= i < o.len() ==> single_line(#[trigger] o[i].name()),
    ensures
        newline_count(text_upto(o, label, color, k)) == k,
    decreases k,
{
    if k > 0 {
        let i = k - 1;
        lemma_text_lines(o, label, color, i);
        let body = if o[i].depth() == 0 {
            styled(label, true, color)
        } else {
            indent(o, i, o[i].depth() as int) + (if is_last_child(o, i) {
                elbow_glyph()
            } else {
                tee_glyph()
            }) + styled(o[i].name(), o[i].is_dir, color)
        };
        assert(line(o, i, label, color) =~= body + seq!['\n']);
        assert(single_line(o[i].name()));
        if o[i].depth() > 0 {
            lemma_indent_shape(o, i, o[i].depth() as int);
        }
        assert forall|q: int| 0 <= q < body.len() implies body[q] != '\n' by {
            if o[i].depth() > 0 {
                let ind = indent(o, i, o[i].depth() as int);
                let conn = if is_last_child(o, i) { elbow_glyph() } else { tee_glyph() };
                if q < ind.len() {
                    assert(body[q] == ind[q]);
                } else if q < ind.len() + 4 {
                    assert(body[q] == conn[q - ind.len()]);
                } else {
                    assert(body[q] == styled(o[i].name(), o[i].is_dir, color)[q - ind.len() - 4]);
                }
            }
        }
        lemma_newline_count_none(body);
        lemma_newline_count_add(body, seq!['\n']);
        assert(newline_count(seq!['\n']) == 1) by {
            let nl = seq!['\n'];
            assert(nl.drop_last() =~= Seq::<char>::empty());
            assert(newline_count(nl.drop_last()) == 0);
            assert(nl.last() == '\n');
        }
        lemma_newline_count_add(text_upto(o, label, color, i), line(o, i, label, color));
    }
}

proof fn lemma_step_over(o: Seq<Entry>, i: int)
    requires
        0 <= i < o.len(),
    ensures
        forall|p: Seq<Seq<char>>| #[trigger] pending_from(o, i, i + 1, p) <==> (pending_from(o, i + 1, i + 1, p) && !dir_at(o, i, p)),
        forall|p: Seq<Seq<char>>| #[trigger] pending_from(o, i, i, p) <==> (pending_from(o, i, i + 1, p) || child_of(o[i], p)),
{
    assert forall|p: Seq<Seq<char>>| #[trigger] pending_from(o, i, i + 1, p) <==> (pending_from(o, i + 1, i + 1, p) && !dir_at(o, i, p)) by {
        if pending_from(o, i, i + 1, p) {
            let j = choose|j: int| i + 1 <= j < o.len() && #[trigger] child_of(o[j], p) && forall|m: int| i <= m < j ==> !dir_at(o, m, p);
            assert(!dir_at(o, i, p));
            assert(forall|m: int| i + 1 <= m < j ==> !dir_at(o, m, p));
        }
        if pending_from(o, i + 1, i + 1, p) && !dir_at(o, i, p) {
            let j = choose|j: int| i + 1 <= j < o.len() && #[trigger] child_of(o[j], p) && forall|m: int| i + 1 <= m < j ==> !dir_at(o, m, p);
            assert(forall|m: int| i <= m < j ==> !dir_at(o, m, p));
        }
    }
    assert forall|p: Seq<Seq<char>>| #[trigger] pending_from(o, i, i, p) <==> (pending_from(o, i, i + 1, p) || child_of(o[i], p)) by {
        if pending_from(o, i, i, p) && !child_of(o[i], p) {
            let j = choose|j: int| i <= j < o.len() && #[trigger] child_of(o[j], p) && forall|m: int| i <= m < j ==> !dir_at(o, m, p);
            assert(j != i);
        }
        if child_of(o[i], p) {
            assert(forall|m: int| i <= m < i ==> !dir_at(o, m, p));
        }
    }
}


/// Keeps the recorded children that do not lie in the directory on line `i`.
fn close_dir(o: &Vec<Entry>, par: &Vec<usize>, i: usize) -> (r: Vec<usize>)
    requires
        i < o@.len(),
        valid_record(o@, par@),
    ensures
        valid_record(o@, r@),
        open_paths(o@, r@) == open_paths(o@, par@).remove(o@[i as int].path()),
{
    let e = &o[i];
    let d = e.components.len();
    proof {
        assert(e.path() =~= e.components@.map_values(|s: String| s@).subrange(0, d as int));
    }
    let mut r: Vec<usize> = Vec::new();
    let mut q: usize = 0;
    while q < par.len()
        invariant
            i < o@.len(),
            e == o@[i as int],
            d == e.components@.len(),
            e.path() == e.components@.map_values(|s: String| s@).subrange(0, d as int),
            valid_record(o@, par@),
            valid_record(o@, r@),
            q <= par@.len(),
            forall|t: int| 0 <= t < r@.len() ==> o@[#[trigger] r@[t] as int].parent() != e.path()
                && exists|u: int| 0 <= u < q && par@[u] == r@[t],
            forall|u: int| 0 <= u < q && o@[#[trigger] par@[u] as int].parent() != e.path()
                ==> exists|t: int| 0 <= t < r@.len() && r@[t] == par@[u],
        decreases par@.len() - q,
    {
        let c = &o[par[q]];
        let n = c.components.len();
        proof {
            assert(c.parent() =~= c.components@.map_values(|s: String| s@).subrange(0, n - 1));
        }
        let ghost old_r = r@;
        if !prefix_eq(&c.components, n - 1, &e.components, d) {
            r.push(par[q]);
            assert(r@[r@.len() - 1] == par@[q as int]);
        }
        proof {
            assert forall|u: int| 0 <= u < q + 1 && o@[#[trigger] par@[u] as int].parent() != e.path()
                implies exists|t: int| 0 <= t < r@.len() && r@[t] == par@[u] by {
                if u < q {
                    let t = choose|t: int| 0 <= t < old_r.len() && old_r[t] == par@[u];
                    assert(r@[t] == old_r[t]);
                } else {
                    assert(r@[r@.len() - 1] == par@[u]);
                }
            }
            assert forall|t: int| 0 <= t < r@.len() implies o@[#[trigger] r@[t] as int].parent() != e.path()
                && exists|u: int| 0 <= u < q + 1 && par@[u] == r@[t] by {
                if t < old_r.len() {
                    assert(r@[t] == old_r[t]);
                    let u = choose|u: int| 0 <= u < q && par@[u] == old_r[t];
                } else {
                    assert(par@[q as int] == r@[t]);
                }
            }
        }
        q = q + 1;
    }
    let ghost target = open_paths(o@, par@).remove(e.path());
    assert forall|p: Seq<Seq<char>>| open_paths(o@, r@).contains(p) <==> target.contains(p) by {
        if open_paths(o@, r@).contains(p) {
            let t = choose|t: int| 0 <= t < r@.len() && #[trigger] o@[r@[t] as int].parent() == p;
            let u = choose|u: int| 0 <= u < q && par@[u] == r@[t];
            assert(o@[par@[u] as int].parent() == p);
        }
        if target.contains(p) {
            let u = choose|u: int| 0 <= u < par@.len() && #[trigger] o@[par@[u] as int].parent() == p;
            let t = choose|t: int| 0 <= t < r@.len() && r@[t] == par@[u];
            assert(o@[r@[t] as int].parent() == p);
        }
    }
    assert(open_paths(o@, r@) =~= target);
    r
}

/// Whether a recorded child sits at level `l`.
fn level_open(o: &Vec<Entry>, par: &Vec<usize>, l: usize) -> (r: bool)
    requires
        valid_record(o@, par@),
    ensures
        r == exists|q: int| 0 <= q < par@.len() && #[trigger] o@[par@[q] as int].depth() == l,
{
    let mut q: usize = 0;
    while q < par.len()
        invariant
            valid_record(o@, par@),
            q <= par@.len(),
            forall|u: int| 0 <= u < q ==> #[trigger] o@[par@[u] as int].depth() != l,
        decreases par@.len() - q,
    {
        if o[par[q]].components.len() == l {
            return true;
        }
        q = q + 1;
    }
    false
}

/// Whether the directory that holds line `i` is among the open paths.
fn parent_open(o: &Vec<Entry>, par: &Vec<usize>, i: usize) -> (r: bool)
    requires
        i < o@.len(),
        o@[i as int].depth() > 0,
        valid_record(o@, par@),
    ensures
        r == open_paths(o@, par@).contains(o@[i as int].parent()),
{
    let e = &o[i];
    let d = e.components.len();
    proof {
        assert(e.parent() =~= e.components@.map_values(|s: String| s@).subrange(0, d - 1));
    }
    let mut q: usize = 0;
    while q < par.len()
        invariant
            e == o@[i as int],
            d == e.components@.len(),
            d > 0,
            e.parent() == e.components@.map_values(|s: String| s@).subrange(0, d - 1),
            valid_record(o@, par@),
            q <= par@.len(),
            forall|u: int| 0 <= u < q ==> #[trigger] o@[par@[u] as int].parent() != e.parent(),
        decreases par@.len() - q,
    {
        let c = &o[par[q]];
        let n = c.components.len();
        proof {
            assert(c.parent() =~= c.components@.map_values(|s: String| s@).subrange(0, n - 1));
        }
        if prefix_eq(&c.components, n - 1, &e.components, d - 1) {
            assert(o@[par@[q as int] as int].parent() == e.parent());
            return true;
        }
        q = q + 1;
    }
    false
}


/// Relies on colored's `Color::to_fg_str`: the parameter that selects a
/// blue foreground is "34".
#[verifier::external_body]
fn blue_code() -> (r: String)
    ensures
        r@ == seq!['3', '4'],
{
    colored::Color::Blue.to_fg_str().into_owned()
}

/// A name as shown; see `styled`.
pub fn style_name(name: &str, is_dir: bool, color: bool) -> (r: String)
    ensures
        r@ == styled(name@, is_dir, color),
{
    if color && is_dir {
        let mut s = String::from_str("\u{1b}[");
        let code = blue_code();
        s.append(code.as_str());
        s.append("m");
        s.append(name);
        s.append("\u{1b}[0m");
        proof {
            reveal_strlit("\u{1b}[");
            reveal_strlit("m");
            reveal_strlit("\u{1b}[0m");
            assert(s@ =~= style_start() + name@ + style_end());
        }
        s
    } else {
        String::from_str(name)
    }
}

/// Draws line `i`, given the children recorded below it after line `i`'s
/// own directory is closed, and whether it is its directory's last child.
fn draw_line(o: &Vec<Entry>, par: &Vec<usize>, i: usize, last: bool, label: &str, color: bool) -> (r: String)
    requires
        i < o@.len(),
        valid_record(o@, par@),
        forall|p: Seq<Seq<char>>| #[trigger] open_paths(o@, par@).contains(p) == open_at(o@, i as int, p),
        o@[i as int].depth() > 0 ==> last == is_last_child(o@, i as int),
    ensures
        r@ == line(o@, i as int, label@, color),
{
    let e = &o[i];
    let d = e.components.len();
    let ghost oi = o@[i as int];
    if d == 0 {
        let mut s = style_name(label, true, color);
        s.append("\n");
        proof {
            reveal_strlit("\n");
            assert(s@ =~= line(o@, i as int, label@, color));
        }
        return s;
    }
    let mut s = String::new();
    let mut l: usize = 1;
    assert(s@ =~= indent(o@, i as int, 1));
    while l < d
        invariant
            i < o@.len(),
            e == o@[i as int],
            d == e.depth(),
            valid_record(o@, par@),
            forall|p: Seq<Seq<char>>| #[trigger] open_paths(o@, par@).contains(p) == open_at(o@, i as int, p),
            1 <= l <= d,
            s@ == indent(o@, i as int, l as int),
        decreases d - l,
    {
        let bar = level_open(o, par, l);
        proof {
            if bar {
                let q = choose|q: int| 0 <= q < par@.len() && #[trigger] o@[par@[q] as int].depth() == l;
                let p = o@[par@[q] as int].parent();
                assert(open_paths(o@, par@).contains(p));
                assert(open_at(o@, i as int, p) && p.len() + 1 == l);
            }
            if bar_at(o@, i as int, l as int) {
                let p = choose|p: Seq<Seq<char>>| #[trigger] open_at(o@, i as int, p) && p.len() + 1 == l;
                assert(open_paths(o@, par@).contains(p));
                let q = choose|q: int| 0 <= q < par@.len() && #[trigger] o@[par@[q] as int].parent() == p;
                assert(o@[par@[q] as int].depth() == l);
            }
        }
        if bar {
            s.append("│\u{a0}\u{a0} ");
            proof { reveal_strlit("│\u{a0}\u{a0} "); }
        } else {
            s.append(" \u{a0}\u{a0} ");
            proof { reveal_strlit(" \u{a0}\u{a0} "); }
        }
        l = l + 1;
        assert(s@ =~= indent(o@, i as int, l as int));
    }
    if last {
        s.append("└── ");
        proof { reveal_strlit("└── "); }
    } else {
        s.append("├── ");
        proof { reveal_strlit("├── "); }
    }
    let name = style_name(e.components[d - 1].as_str(), e.is_dir, color);
    s.append(name.as_str());
    s.append("\n");
    proof {
        reveal_strlit("\n");
        assert(oi.name() == e.components@[d - 1]@);
        assert(s@ =~= line(o@, i as int, label@, color));
    }
    s
}

/// The lines of the diagram of an ordered listing, each ending in a
/// newline, one per entry and in the same order; `label` names the root.
pub fn render_lines(o: &Vec<Entry>, label: &str, color: bool) -> (r: Vec<String>)
    ensures
        r@.len() == o@.len(),
        forall|i: int| 0 <= i < o@.len() ==> #[trigger] r@[i]@ == line(o@, i, label@, color),
{
    let n = o.len();
    let mut par: Vec<usize> = Vec::new();
    let mut back: Vec<String> = Vec::new();
    let mut k: usize = n;
    assert(open_paths(o@, par@) =~= Set::new(|p: Seq<Seq<char>>| pending_from(o@, k as int, k as int, p)));
    while k > 0
        invariant
            n == o@.len(),
            k <= n,
            valid_record(o@, par@),
            open_paths(o@, par@) == Set::new(|p: Seq<Seq<char>>| pending_from(o@, k as int, k as int, p)),
            back@.len() == n - k,
            forall|t: int| 0 <= t < n - k ==> #[trigger] back@[t]@ == line(o@, n - 1 - t, label@, color),
        decreases k,
    {
        let i = k - 1;
        proof { lemma_step_over(o@, i as int); }
        if o[i].is_dir {
            par = close_dir(o, &par, i);
        }
        assert forall|p: Seq<Seq<char>>| #[trigger] open_paths(o@, par@).contains(p) == open_at(o@, i as int, p) by {
        }
        let last = o[i].components.len() > 0 && !parent_open(o, &par, i);
        let text = draw_line(o, &par, i, last, label, color);
        let ghost before = par@;
        if last {
            par.push(i);
            proof {
                assert forall|p: Seq<Seq<char>>| open_paths(o@, par@).contains(p) <==> open_paths(o@, before).insert(o@[i as int].parent()).contains(p) by {
                    if open_paths(o@, par@).contains(p) {
                        let q = choose|q: int| 0 <= q < par@.len() && #[trigger] o@[par@[q] as int].parent() == p;
                        if q < before.len() {
                            assert(o@[before[q] as int].parent() == p);
                        }
                    }
                    if open_paths(o@, before).contains(p) {
                        let q = choose|q: int| 0 <= q < before.len() && #[trigger] o@[before[q] as int].parent() == p;
                        assert(o@[par@[q] as int].parent() == p);
                    }
                    if p == o@[i as int].parent() {
                        assert(o@[par@[before.len() as int] as int].parent() == p);
                    }
                }
            }
        }
        assert(open_paths(o@, par@) =~= Set::new(|p: Seq<Seq<char>>| pending_from(o@, i as int, i as int, p)));
        back.push(text);
        k = i;
    }
    let mut r: Vec<String> = Vec::new();
    while back.len() > 0
        invariant
            n == o@.len(),
            back@.len() + r@.len() == n,
            forall|t: int| 0 <= t < back@.len() ==> #[trigger] back@[t]@ == line(o@, n - 1 - t, label@, color),
            forall|i: int| 0 <= i < r@.len() ==> #[trigger] r@[i]@ == line(o@, i, label@, color),
        decreases back@.len(),
    {
        let ghost t = back@.len() - 1;
        match back.pop() {
            Some(x) => {
                assert(x@ == line(o@, n - 1 - t, label@, color));
                r.push(x);
            },
            None => {},
        }
    }
    r
}

} // verus!
