//! The whole diagram of a walked directory.
use vstd::prelude::*;
use crate::entry::Entry;
use crate::listing::{
    listing, order_entries, lemma_listing_shown, distinct_walk, lemma_listing_ignores_walk_order,
};
use crate::render::{render_lines, tree_text, text_upto, line, styled};

verus! {

/// The root given as the current directory.
pub open spec fn current_dir() -> Seq<char> {
    seq!['.']
}

/// How the root is labelled: given as the current directory, by that
/// directory's own name (none when it is not known); else by the path as
/// given.
pub open spec fn root_label(path: Seq<char>, cwd_name: Option<String>) -> Option<Seq<char>> {
    if path == current_dir() {
        match cwd_name {
            Some(name) => Some(name@),
            None => None,
        }
    } else {
        Some(path)
    }
}

/// Whether the root path is the current directory, whose own name the
/// caller has to supply.
pub fn is_current_dir(path: &str) -> (r: bool)
    ensures
        r == (path@ == current_dir()),
{
    let r = path.unicode_len() == 1 && path.get_char(0) == '.';
    assert(r ==> path@ =~= current_dir());
    r
}

/// The label of the root; see `root_label`.
pub fn label_root(path: &str, cwd_name: Option<String>) -> (r: Option<String>)
    ensures
        match root_label(path@, cwd_name) {
            Some(l) => r is Some && r->0@ == l,
            None => r is None,
        },
{
    if is_current_dir(path) {
        cwd_name
    } else {
        Some(String::from_str(path))
    }
}

/// Joins the lines of the diagram of `o`.
fn join_lines(lines: &Vec<String>, Ghost(o): Ghost<Seq<Entry>>, Ghost(label): Ghost<Seq<char>>, color: bool) -> (r: String)
    requires
        lines@.len() == o.len(),
        forall|i: int| 0 <= i < o.len() ==> #[trigger] lines@[i]@ == line(o, i, label, color),
    ensures
        r@ == tree_text(o, label, color),
{
    let mut s = String::new();
    let mut i: usize = 0;
    while i < lines.len()
        invariant
            lines@.len() == o.len(),
            forall|i: int| 0 <= i < o.len() ==> #[trigger] lines@[i]@ == line(o, i, label, color),
            i <= lines@.len(),
            s@ == text_upto(o, label, color, i as int),
        decreases lines@.len() - i,
    {
        s.append(lines[i].as_str());
        i = i + 1;
    }
    s
}

/// Draws the tree of a walk rooted at `path`: the shown entries of
/// `walked` (see `shown`), in the listing order, one line each. The root is
/// labelled by `path`, or by `cwd_name` when `path` is the current
/// directory; there is no diagram when that name is missing. Directory
/// names are styled when `color` is on.
pub fn tre(path: String, max_depth: usize, walked: Vec<Entry>, cwd_name: Option<String>, color: bool) -> (r: Option<String>)
    ensures
        match root_label(path@, cwd_name) {
            Some(l) => r is Some && r->0@ == tree_text(listing(walked@, max_depth as nat), l, color),
            None => r is None,
        },
{
    let label = match label_root(path.as_str(), cwd_name) {
        Some(l) => l,
        None => { return None; },
    };
    let ordered = order_entries(walked, max_depth);
    let lines = render_lines(&ordered, label.as_str(), color);
    Some(join_lines(&lines, Ghost(ordered@), Ghost(label@), color))
}


/// With a depth bound of zero, every line of the diagram is the root's
/// label.
pub proof fn lemma_depth_zero_root_only(walked: Seq<Entry>, label: Seq<char>, color: bool)
    ensures
        forall|i: int| 0 <= i < listing(walked, 0).len() ==> #[trigger] line(listing(walked, 0), i, label, color)
            == styled(label, true, color) + seq!['\n'],
{
    lemma_listing_shown(walked, 0);
}

/// Drawing an unchanged directory again gives the same text, in whatever
/// order the walk meets its entries.
pub proof fn lemma_redraw_identical(
    walked1: Seq<Entry>,
    walked2: Seq<Entry>,
    max_depth: nat,
    label: Seq<char>,
    color: bool,
)
    requires
        distinct_walk(walked1),
        distinct_walk(walked2),
        forall|x: Entry| walked1.contains(x) <==> walked2.contains(x),
    ensures
        tree_text(listing(walked1, max_depth), label, color) == tree_text(listing(walked2, max_depth), label, color),
{
    lemma_listing_ignores_walk_order(walked1, walked2, max_depth);
}

} // verus!
