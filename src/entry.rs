//! Entries of a directory walk, and the order in which a tree lists them.
use vstd::prelude::*;

verus! {

/// One node met during a walk: its path below the walk's root, one string
/// per component (empty for the root itself), and whether it is a directory.
pub struct Entry {
    pub components: Vec<String>,
    pub is_dir: bool,
}

impl Entry {
    /// The path below the root, as one character sequence per component.
    pub open spec fn path(&self) -> Seq<Seq<char>> {
        self.components@.map_values(|s: String| s@)
    }

    /// Number of components below the root.
    pub open spec fn depth(&self) -> nat {
        self.components@.len()
    }

    /// The entry's base name; the root has none.
    pub open spec fn name(&self) -> Seq<char> {
        if self.depth() == 0 {
            Seq::empty()
        } else {
            self.path().last()
        }
    }

    /// The directory that holds the entry (meaningful below the root only).
    pub open spec fn parent(&self) -> Seq<Seq<char>> {
        self.path().drop_last()
    }

    /// The path a directory groups under: its own path for a directory or
    /// the root, the holding directory for a file.
    pub open spec fn group(&self) -> Seq<Seq<char>> {
        if self.is_dir || self.depth() == 0 {
            self.path()
        } else {
            self.parent()
        }
    }
}

/// Lexicographic order of character sequences from position `i` on,
/// comparing characters by code point; a proper prefix comes first.
pub open spec fn text_lt_from(a: Seq<char>, b: Seq<char>, i: int) -> bool
    decreases a.len() - i,
{
    if i >= a.len() {
        i < b.len()
    } else if i >= b.len() {
        false
    } else if a[i] != b[i] {
        (a[i] as int) < (b[i] as int)
    } else {
        text_lt_from(a, b, i + 1)
    }
}

/// Strict lexicographic order of names.
pub open spec fn text_lt(a: Seq<char>, b: Seq<char>) -> bool {
    text_lt_from(a, b, 0)
}

/// Lexicographic order of paths from component `i` on, comparing
/// components as names; a proper prefix comes first.
pub open spec fn path_lt_from(a: Seq<Seq<char>>, b: Seq<Seq<char>>, i: int) -> bool
    decreases a.len() - i,
{
    if i >= a.len() {
        i < b.len()
    } else if i >= b.len() {
        false
    } else if a[i] != b[i] {
        text_lt(a[i], b[i])
    } else {
        path_lt_from(a, b, i + 1)
    }
}

/// Strict lexicographic order of paths.
pub open spec fn path_lt(a: Seq<Seq<char>>, b: Seq<Seq<char>>) -> bool {
    path_lt_from(a, b, 0)
}

/// The listing order: by group path, then directories before files
/// within a group, then by name.
pub open spec fn entry_lt(a: Entry, b: Entry) -> bool {
    path_lt(a.group(), b.group()) || (a.group() == b.group() && (
        (a.is_dir && !b.is_dir) || (a.is_dir == b.is_dir && text_lt(a.name(), b.name()))))
}

/// The order of names never holds both ways.
pub proof fn lemma_text_lt_from_asym(a: Seq<char>, b: Seq<char>, i: int)
    requires
        0 <= i,
        text_lt_from(a, b, i),
    ensures
        !text_lt_from(b, a, i),
    decreases a.len() - i,
{
    if i < a.len() && i < b.len() && a[i] == b[i] {
        lemma_text_lt_from_asym(a, b, i + 1);
    }
}

/// The order of names is transitive.
pub proof fn lemma_text_lt_from_trans(a: Seq<char>, b: Seq<char>, c: Seq<char>, i: int)
    requires
        0 <= i,
        text_lt_from(a, b, i),
        text_lt_from(b, c, i),
    ensures
        text_lt_from(a, c, i),
    decreases a.len() - i,
{
    if i < a.len() && i < b.len() && i < c.len() && a[i] == b[i] && b[i] == c[i] {
        lemma_text_lt_from_trans(a, b, c, i + 1);
    }
}

/// The order of paths never holds both ways.
pub proof fn lemma_path_lt_from_asym(a: Seq<Seq<char>>, b: Seq<Seq<char>>, i: int)
    requires
        0 <= i,
        path_lt_from(a, b, i),
    ensures
        !path_lt_from(b, a, i),
    decreases a.len() - i,
{
    if i < a.len() && i < b.len() {
        if a[i] == b[i] {
            lemma_path_lt_from_asym(a, b, i + 1);
        } else {
            lemma_text_lt_from_asym(a[i], b[i], 0);
        }
    }
}

/// The order of paths is transitive.
pub proof fn lemma_path_lt_from_trans(
    a: Seq<Seq<char>>,
    b: Seq<Seq<char>>,
    c: Seq<Seq<char>>,
    i: int,
)
    requires
        0 <= i,
        path_lt_from(a, b, i),
        path_lt_from(b, c, i),
    ensures
        path_lt_from(a, c, i),
    decreases a.len() - i,
{
    if i < a.len() && i < b.len() && i < c.len() {
        if a[i] == b[i] && b[i] == c[i] {
            lemma_path_lt_from_trans(a, b, c, i + 1);
        } else if a[i] != b[i] && b[i] != c[i] {
            lemma_text_lt_from_trans(a[i], b[i], c[i], 0);
            if a[i] == c[i] {
                lemma_text_lt_from_asym(a[i], b[i], 0);
            }
        }
    }
}

/// A proper prefix comes before the longer path.
pub proof fn lemma_path_lt_prefix(a: Seq<Seq<char>>, b: Seq<Seq<char>>, k: int)
    requires
        0 <= k <= a.len() < b.len(),
        forall|m: int| 0 <= m < a.len() ==> a[m] == b[m],
    ensures
        path_lt_from(a, b, k),
    decreases a.len() - k,
{
    if k < a.len() {
        lemma_path_lt_prefix(a, b, k + 1);
    }
}

/// Paths that agree on their first `k` components compare as from `k` on.
pub proof fn lemma_path_lt_common(a: Seq<Seq<char>>, b: Seq<Seq<char>>, k: int)
    requires
        0 <= k <= a.len(),
        k <= b.len(),
        forall|m: int| 0 <= m < k ==> a[m] == b[m],
    ensures
        path_lt(a, b) == path_lt_from(a, b, k),
    decreases k,
{
    if k > 0 {
        lemma_path_lt_common(a, b, k - 1);
    }
}

/// Where `p` is not a prefix of `g`, either `g` comes before `p`, or at
/// the first component where they differ `p`'s comes first.
pub proof fn lemma_prefix_split(g: Seq<Seq<char>>, p: Seq<Seq<char>>, k: int)
    requires
        0 <= k <= p.len(),
        k <= g.len(),
        forall|m: int| 0 <= m < k ==> g[m] == p[m],
    ensures
        (p.len() <= g.len() && g.subrange(0, p.len() as int) == p) || path_lt(g, p) || exists|k0: int|
            0 <= k0 < p.len() && k0 < g.len() && (forall|m: int| 0 <= m < k0 ==> g[m] == p[m])
                && #[trigger] text_lt(p[k0], g[k0]),
    decreases p.len() - k,
{
    if k == p.len() {
        assert(g.subrange(0, p.len() as int) =~= p);
    } else if k == g.len() {
        lemma_path_lt_prefix(g, p, 0);
    } else if g[k] == p[k] {
        lemma_prefix_split(g, p, k + 1);
    } else {
        lemma_text_lt_total(g[k], p[k], 0);
        if text_lt(g[k], p[k]) {
            lemma_path_lt_common(g, p, k);
        } else {
            assert(text_lt(p[k], g[k]));
        }
    }
}

/// Every path that extends `p` comes before a path `g` that agrees with
/// `p` up to a component where `p`'s comes first.
pub proof fn lemma_extension_before(q: Seq<Seq<char>>, p: Seq<Seq<char>>, g: Seq<Seq<char>>, k0: int)
    requires
        0 <= k0 < p.len() <= q.len(),
        k0 < g.len(),
        q.subrange(0, p.len() as int) == p,
        forall|m: int| 0 <= m < k0 ==> g[m] == p[m],
        text_lt(p[k0], g[k0]),
    ensures
        path_lt(q, g),
{
    assert forall|m: int| 0 <= m < k0 implies q[m] == g[m] by {
        assert(q[m] == q.subrange(0, p.len() as int)[m]);
    }
    assert(q[k0] == q.subrange(0, p.len() as int)[k0]);
    lemma_text_lt_from_asym(p[k0], g[k0], 0);
    lemma_path_lt_common(q, g, k0);
}

/// The listing order is a strict order: never both ways.
pub proof fn lemma_entry_lt_asym(a: Entry, b: Entry)
    requires
        entry_lt(a, b),
    ensures
        !entry_lt(b, a),
{
    if path_lt(a.group(), b.group()) {
        lemma_path_lt_from_asym(a.group(), b.group(), 0);
        if a.group() == b.group() {
            lemma_path_lt_from_asym(a.group(), a.group(), 0);
        }
    } else if a.is_dir == b.is_dir {
        lemma_text_lt_from_asym(a.name(), b.name(), 0);
    }
}

/// The listing order is transitive.
pub proof fn lemma_entry_lt_trans(a: Entry, b: Entry, c: Entry)
    requires
        entry_lt(a, b),
        entry_lt(b, c),
    ensures
        entry_lt(a, c),
{
    let (ga, gb, gc) = (a.group(), b.group(), c.group());
    if path_lt(ga, gb) && path_lt(gb, gc) {
        lemma_path_lt_from_trans(ga, gb, gc, 0);
    } else if !path_lt(ga, gb) && !path_lt(gb, gc) {
        if a.is_dir == b.is_dir && b.is_dir == c.is_dir {
            lemma_text_lt_from_trans(a.name(), b.name(), c.name(), 0);
        }
    }
}


/// Distinct names are ordered one way or the other.
pub proof fn lemma_text_lt_total(a: Seq<char>, b: Seq<char>, i: int)
    requires
        0 <= i <= a.len(),
        i <= b.len(),
        forall|m: int| 0 <= m < i ==> a[m] == b[m],
        a != b,
    ensures
        text_lt_from(a, b, i) || text_lt_from(b, a, i),
    decreases a.len() - i,
{
    if i == a.len() && i == b.len() {
        assert(a =~= b);
    } else if i < a.len() && i < b.len() && a[i] == b[i] {
        lemma_text_lt_total(a, b, i + 1);
    } else if i < a.len() && i < b.len() {
        assert((a[i] as int) != (b[i] as int));
    }
}

/// Distinct paths are ordered one way or the other.
pub proof fn lemma_path_lt_total(a: Seq<Seq<char>>, b: Seq<Seq<char>>, i: int)
    requires
        0 <= i <= a.len(),
        i <= b.len(),
        forall|m: int| 0 <= m < i ==> a[m] == b[m],
        a != b,
    ensures
        path_lt_from(a, b, i) || path_lt_from(b, a, i),
    decreases a.len() - i,
{
    if i == a.len() && i == b.len() {
        assert(a =~= b);
    } else if i < a.len() && i < b.len() && a[i] == b[i] {
        lemma_path_lt_total(a, b, i + 1);
    } else if i < a.len() && i < b.len() {
        lemma_text_lt_total(a[i], b[i], 0);
    }
}

/// Whether every component of the entry's path is a non-empty name.
pub open spec fn named_components(e: Entry) -> bool {
    forall|k: int| 0 <= k < e.depth() ==> (#[trigger] e.path()[k]).len() > 0
}

/// Entries with non-empty names that differ in path or kind are ordered
/// one way or the other.
pub proof fn lemma_entry_lt_total(a: Entry, b: Entry)
    requires
        a.path() != b.path() || a.is_dir != b.is_dir,
        named_components(a),
        named_components(b),
    ensures
        entry_lt(a, b) || entry_lt(b, a),
{
    if a.group() != b.group() {
        lemma_path_lt_total(a.group(), b.group(), 0);
    } else if a.is_dir == b.is_dir {
        if a.name() != b.name() {
            lemma_text_lt_total(a.name(), b.name(), 0);
        } else if a.depth() > 0 && b.depth() > 0 {
            assert(a.path() =~= a.parent().push(a.name()));
            assert(b.path() =~= b.parent().push(b.name()));
        } else if a.depth() > 0 {
            assert(a.path()[a.depth() - 1].len() > 0);
        } else if b.depth() > 0 {
            assert(b.path()[b.depth() - 1].len() > 0);
        } else {
            assert(a.path() =~= b.path());
        }
    }
}

/// Compares two names in the listing's lexicographic order.
pub fn text_less(a: &str, b: &str) -> (r: bool)
    ensures
        r == text_lt(a@, b@),
{
    let la = a.unicode_len();
    let lb = b.unicode_len();
    let mut i: usize = 0;
    while i < la && i < lb
        invariant
            la == a@.len(),
            lb == b@.len(),
            i <= la,
            i <= lb,
            text_lt(a@, b@) == text_lt_from(a@, b@, i as int),
        decreases la - i,
    {
        let ca = a.get_char(i);
        let cb = b.get_char(i);
        if ca != cb {
            return (ca as u32) < (cb as u32);
        }
        i = i + 1;
    }
    i < lb
}

/// Whether the first `la` components of `a` and the first `lb` of `b`
/// name the same path.
pub fn prefix_eq(a: &Vec<String>, la: usize, b: &Vec<String>, lb: usize) -> (r: bool)
    requires
        la <= a@.len(),
        lb <= b@.len(),
    ensures
        r == (a@.map_values(|s: String| s@).subrange(0, la as int) =~= b@.map_values(
            |s: String| s@,
        ).subrange(0, lb as int)),
{
    let ghost pa = a@.map_values(|s: String| s@).subrange(0, la as int);
    let ghost pb = b@.map_values(|s: String| s@).subrange(0, lb as int);
    if la != lb {
        return false;
    }
    let mut i: usize = 0;
    while i < la
        invariant
            la == lb,
            la <= a@.len(),
            lb <= b@.len(),
            i <= la,
            pa == a@.map_values(|s: String| s@).subrange(0, la as int),
            pb == b@.map_values(|s: String| s@).subrange(0, lb as int),
            forall|k: int| 0 <= k < i ==> pa[k] == pb[k],
        decreases la - i,
    {
        if a[i] != b[i] {
            assert(pa[i as int] != pb[i as int]);
            return false;
        }
        i = i + 1;
    }
    assert(pa =~= pb);
    true
}

/// Compares the first `la` components of `a` with the first `lb` of `b`
/// in the lexicographic order of paths.
pub fn prefix_less(a: &Vec<String>, la: usize, b: &Vec<String>, lb: usize) -> (r: bool)
    requires
        la <= a@.len(),
        lb <= b@.len(),
    ensures
        r == path_lt(
            a@.map_values(|s: String| s@).subrange(0, la as int),
            b@.map_values(|s: String| s@).subrange(0, lb as int),
        ),
{
    let ghost pa = a@.map_values(|s: String| s@).subrange(0, la as int);
    let ghost pb = b@.map_values(|s: String| s@).subrange(0, lb as int);
    let mut i: usize = 0;
    while i < la && i < lb
        invariant
            la <= a@.len(),
            lb <= b@.len(),
            i <= la,
            i <= lb,
            pa == a@.map_values(|s: String| s@).subrange(0, la as int),
            pb == b@.map_values(|s: String| s@).subrange(0, lb as int),
            path_lt(pa, pb) == path_lt_from(pa, pb, i as int),
        decreases la - i,
    {
        if a[i] != b[i] {
            return text_less(a[i].as_str(), b[i].as_str());
        }
        i = i + 1;
    }
    i < lb
}

impl Entry {
    /// Number of components of the entry's group path.
    fn group_len(&self) -> (r: usize)
        ensures
            r == self.group().len(),
            r <= self.components@.len(),
            self.group() =~= self.path().subrange(0, r as int),
    {
        if self.is_dir || self.components.len() == 0 {
            self.components.len()
        } else {
            self.components.len() - 1
        }
    }

    /// Whether `self` comes strictly before `other` in the listing order.
    pub fn less(&self, other: &Entry) -> (r: bool)
        ensures
            r == entry_lt(*self, *other),
    {
        let la = self.group_len();
        let lb = other.group_len();
        if prefix_less(&self.components, la, &other.components, lb) {
            return true;
        }
        if !prefix_eq(&self.components, la, &other.components, lb) {
            return false;
        }
        if self.is_dir != other.is_dir {
            return self.is_dir;
        }
        let n = self.components.len();
        let m = other.components.len();
        if m == 0 {
            assert(other.name() =~= Seq::<char>::empty());
            false
        } else if n == 0 {
            assert(self.name() =~= Seq::<char>::empty());
            assert(other.name() == other.components@[m - 1]@);
            other.components[m - 1].as_str().unicode_len() > 0
        } else {
            assert(self.name() == self.components@[n - 1]@);
            assert(other.name() == other.components@[m - 1]@);
            text_less(self.components[n - 1].as_str(), other.components[m - 1].as_str())
        }
    }
}

} // verus!
