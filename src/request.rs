//! What a command line asks to draw: a root and a depth bound.
use vstd::prelude::*;
use crate::tree::current_dir;

verus! {

/// The depth bound when none is given.
pub const DEFAULT_DEPTH: usize = 5;

/// Whether a text is a non-empty run of decimal digits.
pub open spec fn all_digits(s: Seq<char>) -> bool {
    s.len() > 0 && forall|k: int| 0 <= k < s.len() ==> '0' <= #[trigger] s[k] <= '9'
}

/// The number that a run of decimal digits writes.
pub open spec fn decimal_value(s: Seq<char>) -> int
    decreases s.len(),
{
    if s.len() == 0 {
        0
    } else {
        decimal_value(s.drop_last()) * 10 + (s.last() as int - '0' as int)
    }
}

/// Whether a root path is a depth in disguise: a bare number that fits a
/// `usize`.
pub open spec fn is_depth_shorthand(path: Seq<char>) -> bool {
    all_digits(path) && decimal_value(path) <= usize::MAX
}

proof fn lemma_decimal_grows(s: Seq<char>, k: int)
    requires
        0 <= k <= s.len(),
        all_digits(s) || s.len() == 0,
    ensures
        decimal_value(s.subrange(0, k)) <= decimal_value(s),
        decimal_value(s.subrange(0, k)) >= 0,
    decreases s.len() - k,
{
    if k < s.len() {
        lemma_decimal_grows(s, k + 1);
        let t = s.subrange(0, k + 1);
        assert(t.drop_last() =~= s.subrange(0, k));
        assert('0' <= s[k] <= '9');
    } else {
        assert(s.subrange(0, k) =~= s);
        lemma_decimal_nonneg(s);
    }
}

proof fn lemma_decimal_nonneg(s: Seq<char>)
    requires
        all_digits(s) || s.len() == 0,
    ensures
        decimal_value(s) >= 0,
    decreases s.len(),
{
    if s.len() > 0 {
        let t = s.drop_last();
        assert(all_digits(t) || t.len() == 0) by {
            assert forall|k: int| 0 <= k < t.len() implies '0' <= #[trigger] t[k] <= '9' by {
                assert(t[k] == s[k]);
            }
        }
        lemma_decimal_nonneg(t);
        assert('0' <= s[s.len() - 1] <= '9');
    }
}

/// The value of `path` as a depth, when it is a depth shorthand.
pub fn depth_shorthand(path: &str) -> (r: Option<usize>)
    ensures
        match r {
            Some(d) => is_depth_shorthand(path@) && d == decimal_value(path@),
            None => !is_depth_shorthand(path@),
        },
{
    let n = path.unicode_len();
    if n == 0 {
        return None;
    }
    let mut v: usize = 0;
    let mut i: usize = 0;
    assert(path@.subrange(0, 0) =~= Seq::<char>::empty());
    while i < n
        invariant
            n == path@.len(),
            n > 0,
            i <= n,
            v == decimal_value(path@.subrange(0, i as int)),
            forall|k: int| 0 <= k < i ==> '0' <= #[trigger] path@[k] <= '9',
        decreases n - i,
    {
        let c = path.get_char(i);
        let ghost t = path@.subrange(0, i + 1);
        assert(t.drop_last() =~= path@.subrange(0, i as int));
        if c < '0' || c > '9' {
            return None;
        }
        let d = (c as u32 - '0' as u32) as usize;
        assert(d as int == t.last() as int - '0' as int);
        if v > (usize::MAX - d) / 10 {
            proof {
                assert(v * 10 + d > usize::MAX) by (nonlinear_arith)
                    requires
                        v > (usize::MAX - d) / 10,
                        d <= 9,
                ;
                if all_digits(path@) {
                    lemma_decimal_grows(path@, i + 1);
                }
            }
            return None;
        }
        assert(v * 10 + d <= usize::MAX) by (nonlinear_arith)
            requires
                v <= (usize::MAX - d) / 10,
                d <= 9,
        ;
        v = v * 10 + d;
        i = i + 1;
    }
    assert(path@.subrange(0, n as int) =~= path@);
    Some(v)
}

/// The root and depth bound that a command line asks for: with the depth
/// left at its default, a root given as a bare number means the current
/// directory to that depth; otherwise both stand as given.
pub fn resolve_request(path: String, max_depth: usize) -> (r: (String, usize))
    ensures
        if max_depth == DEFAULT_DEPTH && is_depth_shorthand(path@) {
            r.0@ == current_dir() && r.1 == decimal_value(path@)
        } else {
            r.0@ == path@ && r.1 == max_depth
        },
{
    if max_depth == DEFAULT_DEPTH {
        if let Some(d) = depth_shorthand(path.as_str()) {
            let here = String::from_str(".");
            proof {
                reveal_strlit(".");
                assert(here@ =~= current_dir());
            }
            return (here, d);
        }
    }
    (path, max_depth)
}

} // verus!
