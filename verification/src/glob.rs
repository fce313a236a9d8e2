//! Matching of single chunks against each other. A chunk is the bare `*`
//! (matching any one chunk), a pattern holding `$*` units (each matching any
//! substring of one chunk), or plain literal text.
use vstd::prelude::*;
use crate::grammar::single_wild;

verus! {

/// Whether the chunk holds a `$` — in canonical form, a `$` always begins a
/// `$*` substring wildcard.
pub open spec fn has_dollar(c: Seq<char>) -> bool {
    exists|i: int| 0 <= i < c.len() && #[trigger] c[i] == '$'
}

/// Whether a pattern chunk `p` matches the text `t`, where every `$*` unit
/// of `p` absorbs any run of characters of `t` and every other character of
/// `p` must appear verbatim.
pub open spec fn glob_matches(p: Seq<char>, t: Seq<char>) -> bool
    decreases p.len() + t.len(),
{
    if p.len() == 0 {
        t.len() == 0
    } else if p.len() >= 2 && p[0] == '$' && p[1] == '*' {
        glob_matches(p.skip(2), t) || (t.len() > 0 && glob_matches(p, t.skip(1)))
    } else {
        t.len() > 0 && p[0] == t[0] && glob_matches(p.skip(1), t.skip(1))
    }
}

/// Whether the literal texts before the first `$*` of each side agree: one
/// is a prefix of the other.
pub open spec fn prefix_compat(x: Seq<char>, y: Seq<char>) -> bool
    decreases x.len() + y.len(),
{
    if x.len() == 0 || y.len() == 0 {
        true
    } else if x[0] == '$' || y[0] == '$' {
        true
    } else {
        x[0] == y[0] && prefix_compat(x.skip(1), y.skip(1))
    }
}

/// Whether the chunk ends with a `$*` unit.
pub open spec fn ends_dollar_star(x: Seq<char>) -> bool {
    x.len() >= 2 && x[x.len() - 1] == '*' && x[x.len() - 2] == '$'
}

/// Whether the literal texts after the last `$*` of each side agree: one is
/// a suffix of the other.
pub open spec fn suffix_compat(x: Seq<char>, y: Seq<char>) -> bool
    decreases x.len() + y.len(),
{
    if x.len() == 0 || y.len() == 0 {
        true
    } else if ends_dollar_star(x) || ends_dollar_star(y) {
        true
    } else {
        x.last() == y.last() && suffix_compat(x.drop_last(), y.drop_last())
    }
}

/// Whether the key sets of two chunks share a chunk text. Two substring
/// patterns overlap exactly when their leading and trailing literals agree
/// (the wildcards can absorb the rest on both sides); one side matching the
/// other's text outright also witnesses a common chunk.
pub open spec fn chunk_intersects(x: Seq<char>, y: Seq<char>) -> bool {
    if x == single_wild() || y == single_wild() {
        true
    } else if has_dollar(x) && has_dollar(y) {
        (prefix_compat(x, y) && suffix_compat(x, y)) || glob_matches(x, y) || glob_matches(y, x)
    } else if has_dollar(x) {
        glob_matches(x, y)
    } else if has_dollar(y) {
        glob_matches(y, x)
    } else {
        x == y
    }
}

/// Whether the key set of chunk `x` contains every chunk text of `y`: `*`
/// contains everything, nothing else contains `*`, a substring pattern must
/// match `y`'s text (absorbing `y`'s own `$*` units whole), and a literal
/// only contains itself.
pub open spec fn chunk_includes(x: Seq<char>, y: Seq<char>) -> bool {
    if x == single_wild() {
        true
    } else if y == single_wild() {
        false
    } else if has_dollar(x) {
        glob_matches(x, y)
    } else {
        x == y
    }
}

/// Decides `glob_matches` by a table over positions of `p` and `t`.
pub(crate) fn glob_matches_exec(p: &Vec<char>, t: &Vec<char>) -> (r: bool)
    requires
        p@.len() < usize::MAX,
        t@.len() < usize::MAX,
    ensures
        r == glob_matches(p@, t@),
{
    let np = p.len();
    let nt = t.len();
    // rows[k][j] holds glob_matches(p@.skip(pi + k), t@.skip(j)) for the rows
    // pi+1 ..= np already computed; each outer step inserts row pi in front.
    let mut rows: Vec<Vec<bool>> = Vec::new();
    let mut ii: usize = 0;
    while ii <= np
        invariant
            0 <= ii <= np + 1,
            np == p@.len(),
            nt == t@.len(),
            rows@.len() == ii,
            forall|k: int| 0 <= k < ii ==> #[trigger] rows@[k]@.len() == nt + 1,
            forall|k: int, j: int|
                0 <= k < ii && 0 <= j <= nt ==> #[trigger] rows@[k]@[j] == glob_matches(
                    p@.skip(np - ii + 1 + k),
                    t@.skip(j),
                ),
        decreases np + 1 - ii,
    {
        let pi = np - ii;
        let ghost ps = p@.skip(pi as int);
        let mut row: Vec<bool> = Vec::new();
        let mut jj: usize = 0;
        while jj <= nt
            invariant
                0 <= jj <= nt + 1,
                np == p@.len(),
                nt == t@.len(),
                pi == np - ii,
                0 <= ii <= np,
                ps == p@.skip(pi as int),
                rows@.len() == ii,
                forall|k: int| 0 <= k < ii ==> #[trigger] rows@[k]@.len() == nt + 1,
                forall|k: int, j: int|
                    0 <= k < ii && 0 <= j <= nt ==> #[trigger] rows@[k]@[j] == glob_matches(
                        p@.skip(pi + 1 + k),
                        t@.skip(j),
                    ),
                row@.len() == jj,
                forall|j: int|
                    0 <= j < jj ==> #[trigger] row@[j] == glob_matches(ps, t@.skip(nt - j)),
            decreases nt + 1 - jj,
        {
            let ti = nt - jj;
            let ghost ts = t@.skip(ti as int);
            let v: bool;
            if pi == np {
                v = ti == nt;
                proof {
                    assert(ps.len() == 0);
                    if ti == nt {
                        assert(ts.len() == 0);
                    }
                    assert(v == glob_matches(ps, ts));
                }
            } else if pi + 1 < np && p[pi] == '$' && p[pi + 1] == '*' {
                proof {
                    assert(ps[0] == p@[pi as int]);
                    assert(ps[1] == p@[pi + 1]);
                    assert(ps.skip(2) =~= p@.skip(pi + 2));
                    assert(ps.len() >= 2);
                }
                let skip_pat = rows[1][ti];
                let absorb = if ti < nt {
                    row[jj - 1]
                } else {
                    false
                };
                v = skip_pat || absorb;
                proof {
                    assert(rows@[1]@[ti as int] == glob_matches(p@.skip(pi + 2), ts));
                    if ti < nt {
                        assert(row@[jj - 1] == glob_matches(ps, t@.skip(ti + 1)));
                        assert(ts.skip(1) =~= t@.skip(ti + 1));
                        assert(ts.len() > 0);
                    } else {
                        assert(ts.len() == 0);
                    }
                    assert(v == glob_matches(ps, ts));
                }
            } else {
                proof {
                    assert(ps[0] == p@[pi as int]);
                    assert(ps.len() >= 1);
                    if pi + 1 < np {
                        assert(ps[1] == p@[pi + 1]);
                    }
                    assert(!(ps.len() >= 2 && ps[0] == '$' && ps[1] == '*'));
                }
                if ti < nt && p[pi] == t[ti] {
                    v = rows[0][ti + 1];
                    proof {
                        assert(ps.skip(1) =~= p@.skip(pi + 1));
                        assert(ts.skip(1) =~= t@.skip(ti + 1));
                        assert(rows@[0]@[ti + 1] == glob_matches(p@.skip(pi + 1), t@.skip(ti + 1)));
                        assert(ts[0] == t@[ti as int]);
                        assert(v == glob_matches(ps, ts));
                    }
                } else {
                    v = false;
                    proof {
                        if ti < nt {
                            assert(ts[0] == t@[ti as int]);
                        }
                        assert(v == glob_matches(ps, ts));
                    }
                }
            }
            row.push(v);
            proof {
                assert(row@[jj as int] == glob_matches(ps, t@.skip(nt - (jj as int))));
            }
            jj = jj + 1;
        }
        // reverse the row so that row[j] == glob_matches(ps, t@.skip(j))
        let mut ordered: Vec<bool> = Vec::new();
        let mut j2: usize = 0;
        while j2 <= nt
            invariant
                0 <= j2 <= nt + 1,
                nt == t@.len(),
                row@.len() == nt + 1,
                ps == p@.skip(pi as int),
                forall|j: int|
                    0 <= j <= nt ==> #[trigger] row@[j] == glob_matches(ps, t@.skip(nt - j)),
                ordered@.len() == j2,
                forall|j: int|
                    0 <= j < j2 ==> #[trigger] ordered@[j] == glob_matches(ps, t@.skip(j)),
            decreases nt + 1 - j2,
        {
            ordered.push(row[nt - j2]);
            j2 = j2 + 1;
        }
        let ghost old_rows = rows@;
        rows.insert(0, ordered);
        proof {
            assert forall|k: int| 0 <= k < ii + 1 implies #[trigger] rows@[k]@.len() == nt
                + 1 by {
                if k == 0 {
                    assert(rows@[0] == ordered);
                } else {
                    assert(rows@[k] == old_rows[k - 1]);
                }
            }
            assert forall|k: int, j: int|
                0 <= k < ii + 1 && 0 <= j <= nt implies #[trigger] rows@[k]@[j] == glob_matches(
                p@.skip(pi + k),
                t@.skip(j),
            ) by {
                if k == 0 {
                    assert(rows@[0] == ordered);
                } else {
                    assert(rows@[k] == old_rows[k - 1]);
                    assert(old_rows[k - 1]@[j] == glob_matches(p@.skip(pi + 1 + (k - 1)), t@.skip(j)));
                }
            }
        }
        ii = ii + 1;
    }
    proof {
        assert(rows@[0]@[0] == glob_matches(p@.skip(0), t@.skip(0)));
        assert(p@.skip(0) =~= p@);
        assert(t@.skip(0) =~= t@);
    }
    rows[0][0]
}

/// Whether the chunk holds a `$` character.
pub(crate) fn has_dollar_exec(c: &Vec<char>) -> (r: bool)
    ensures
        r == has_dollar(c@),
{
    let mut i: usize = 0;
    while i < c.len()
        invariant
            0 <= i <= c@.len(),
            forall|k: int| 0 <= k < i ==> c@[k] != '$',
        decreases c.len() - i,
    {
        if c[i] == '$' {
            return true;
        }
        i = i + 1;
    }
    false
}

/// Decides `prefix_compat` by scanning from the front.
pub(crate) fn prefix_compat_exec(x: &Vec<char>, y: &Vec<char>) -> (r: bool)
    ensures
        r == prefix_compat(x@, y@),
{
    let mut k: usize = 0;
    proof {
        assert(x@.skip(0) =~= x@);
        assert(y@.skip(0) =~= y@);
    }
    while k < x.len() && k < y.len()
        invariant
            0 <= k <= x@.len(),
            0 <= k <= y@.len(),
            prefix_compat(x@, y@) == prefix_compat(x@.skip(k as int), y@.skip(k as int)),
        decreases x.len() - k,
    {
        let ghost xs = x@.skip(k as int);
        let ghost ys = y@.skip(k as int);
        proof {
            assert(xs[0] == x@[k as int]);
            assert(ys[0] == y@[k as int]);
            assert(xs.skip(1) =~= x@.skip(k + 1));
            assert(ys.skip(1) =~= y@.skip(k + 1));
        }
        if x[k] == '$' || y[k] == '$' {
            return true;
        }
        if x[k] != y[k] {
            return false;
        }
        k = k + 1;
    }
    proof {
        assert(x@.skip(k as int).len() == 0 || y@.skip(k as int).len() == 0);
    }
    true
}

/// Decides `suffix_compat` by scanning from the back.
pub(crate) fn suffix_compat_exec(x: &Vec<char>, y: &Vec<char>) -> (r: bool)
    ensures
        r == suffix_compat(x@, y@),
{
    let mut a: usize = x.len();
    let mut b: usize = y.len();
    proof {
        assert(x@.take(x@.len() as int) =~= x@);
        assert(y@.take(y@.len() as int) =~= y@);
    }
    while a > 0 && b > 0
        invariant
            0 <= a <= x@.len(),
            0 <= b <= y@.len(),
            suffix_compat(x@, y@) == suffix_compat(x@.take(a as int), y@.take(b as int)),
        decreases a,
    {
        let ghost xs = x@.take(a as int);
        let ghost ys = y@.take(b as int);
        proof {
            assert(xs.len() == a);
            assert(ys.len() == b);
            assert(xs.last() == x@[a - 1]);
            assert(ys.last() == y@[b - 1]);
            if a >= 2 {
                assert(xs[a - 2] == x@[a - 2]);
            }
            if b >= 2 {
                assert(ys[b - 2] == y@[b - 2]);
            }
            assert(xs.drop_last() =~= x@.take(a - 1));
            assert(ys.drop_last() =~= y@.take(b - 1));
        }
        let x_ds = a >= 2 && x[a - 1] == '*' && x[a - 2] == '$';
        let y_ds = b >= 2 && y[b - 1] == '*' && y[b - 2] == '$';
        proof {
            assert(x_ds == ends_dollar_star(xs));
            assert(y_ds == ends_dollar_star(ys));
        }
        if x_ds || y_ds {
            return true;
        }
        if x[a - 1] != y[b - 1] {
            return false;
        }
        a = a - 1;
        b = b - 1;
    }
    true
}

} // verus!
