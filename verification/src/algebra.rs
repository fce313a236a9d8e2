//! The set algebra over whole key expressions, stated and decided over their
//! chunk sequences: intersection (the key sets share a key) and inclusion
//! (one key set contains the other), aligned chunk by chunk where a `**` on
//! either side may consume any number of opposing chunks.
use vstd::prelude::*;
use crate::chunks::{chunk_views, chunks_of};
use crate::glob::{
    chunk_includes, chunk_intersects, glob_matches_exec, has_dollar, has_dollar_exec,
    prefix_compat_exec, suffix_compat_exec,
};
use crate::grammar::{double_wild, is_double_wild, is_single_wild, single_wild};

verus! {

/// Whether the key sets of the two chunk sequences share a key: empty against
/// empty always matches, a `**` head on either side may consume zero chunks
/// (drop it) or one opposing chunk (keep it), and otherwise the two heads
/// must share a chunk and the tails must go on matching.
pub open spec fn seq_intersects(a: Seq<Seq<char>>, b: Seq<Seq<char>>) -> bool
    decreases a.len() + b.len(),
{
    if a.len() == 0 && b.len() == 0 {
        true
    } else if a.len() == 0 {
        b[0] == double_wild() && seq_intersects(a, b.skip(1))
    } else if b.len() == 0 {
        a[0] == double_wild() && seq_intersects(a.skip(1), b)
    } else if a[0] == double_wild() || b[0] == double_wild() {
        seq_intersects(a.skip(1), b) || seq_intersects(a, b.skip(1))
    } else {
        chunk_intersects(a[0], b[0]) && seq_intersects(a.skip(1), b.skip(1))
    }
}

/// Whether the key set of `a` contains every key of `b`: a `**` head of `a`
/// may absorb any number of `b`'s chunks, a wildcard construct of `b` must
/// be met by an equal-or-broader construct of `a`, and otherwise `a`'s head
/// chunk must include `b`'s.
pub open spec fn seq_includes(a: Seq<Seq<char>>, b: Seq<Seq<char>>) -> bool
    decreases a.len() + b.len(),
{
    if a.len() == 0 {
        b.len() == 0
    } else if a[0] == double_wild() {
        seq_includes(a.skip(1), b) || (b.len() > 0 && seq_includes(a, b.skip(1)))
    } else if b.len() == 0 {
        false
    } else if b[0] == double_wild() {
        false
    } else {
        chunk_includes(a[0], b[0]) && seq_includes(a.skip(1), b.skip(1))
    }
}

/// Whether two chunks are the same text.
pub(crate) fn chunk_eq_exec(x: &Vec<char>, y: &Vec<char>) -> (r: bool)
    ensures
        r == (x@ == y@),
{
    if x.len() != y.len() {
        return false;
    }
    let mut i: usize = 0;
    while i < x.len()
        invariant
            0 <= i <= x@.len(),
            x@.len() == y@.len(),
            forall|k: int| 0 <= k < i ==> x@[k] == y@[k],
        decreases x.len() - i,
    {
        if x[i] != y[i] {
            return false;
        }
        i = i + 1;
    }
    proof {
        assert(x@ =~= y@);
    }
    true
}

/// Decides `chunk_intersects`.
pub(crate) fn chunk_intersects_exec(x: &Vec<char>, y: &Vec<char>) -> (r: bool)
    requires
        x@.len() < usize::MAX,
        y@.len() < usize::MAX,
    ensures
        r == chunk_intersects(x@, y@),
{
    if is_single_wild(x) || is_single_wild(y) {
        return true;
    }
    let dx = has_dollar_exec(x);
    let dy = has_dollar_exec(y);
    if dx && dy {
        if prefix_compat_exec(x, y) && suffix_compat_exec(x, y) {
            true
        } else {
            glob_matches_exec(x, y) || glob_matches_exec(y, x)
        }
    } else if dx {
        glob_matches_exec(x, y)
    } else if dy {
        glob_matches_exec(y, x)
    } else {
        chunk_eq_exec(x, y)
    }
}

/// Decides `chunk_includes`.
pub(crate) fn chunk_includes_exec(x: &Vec<char>, y: &Vec<char>) -> (r: bool)
    requires
        x@.len() < usize::MAX,
        y@.len() < usize::MAX,
    ensures
        r == chunk_includes(x@, y@),
{
    if is_single_wild(x) {
        true
    } else if is_single_wild(y) {
        false
    } else if has_dollar_exec(x) {
        glob_matches_exec(x, y)
    } else {
        chunk_eq_exec(x, y)
    }
}

/// Decides `seq_intersects` by a table over positions of `a` and `b`.
pub(crate) fn seq_intersects_exec(a: &Vec<Vec<char>>, b: &Vec<Vec<char>>) -> (r: bool)
    requires
        a@.len() < usize::MAX,
        b@.len() < usize::MAX,
        forall|k: int| 0 <= k < a@.len() ==> #[trigger] a@[k]@.len() < usize::MAX,
        forall|k: int| 0 <= k < b@.len() ==> #[trigger] b@[k]@.len() < usize::MAX,
    ensures
        r == seq_intersects(chunk_views(a@), chunk_views(b@)),
{
    let ghost ga = chunk_views(a@);
    let ghost gb = chunk_views(b@);
    let na = a.len();
    let nb = b.len();
    let mut rows: Vec<Vec<bool>> = Vec::new();
    let mut ii: usize = 0;
    while ii <= na
        invariant
            0 <= ii <= na + 1,
            na == a@.len(),
            nb == b@.len(),
            ga == chunk_views(a@),
            gb == chunk_views(b@),
            rows@.len() == ii,
            forall|k: int| 0 <= k < ii ==> #[trigger] rows@[k]@.len() == nb + 1,
            forall|k: int, j: int|
                0 <= k < ii && 0 <= j <= nb ==> #[trigger] rows@[k]@[j] == seq_intersects(
                    ga.skip(na - ii + 1 + k),
                    gb.skip(j),
                ),
        decreases na + 1 - ii,
    {
        let pi = na - ii;
        let ghost asq = ga.skip(pi as int);
        let mut row: Vec<bool> = Vec::new();
        let mut jj: usize = 0;
        while jj <= nb
            invariant
                0 <= jj <= nb + 1,
                na == a@.len(),
                nb == b@.len(),
                ga == chunk_views(a@),
                gb == chunk_views(b@),
                pi == na - ii,
                0 <= ii <= na,
                asq == ga.skip(pi as int),
                rows@.len() == ii,
                forall|k: int| 0 <= k < ii ==> #[trigger] rows@[k]@.len() == nb + 1,
                forall|k: int, j: int|
                    0 <= k < ii && 0 <= j <= nb ==> #[trigger] rows@[k]@[j] == seq_intersects(
                        ga.skip(pi + 1 + k),
                        gb.skip(j),
                    ),
                row@.len() == jj,
                forall|j: int|
                    0 <= j < jj ==> #[trigger] row@[j] == seq_intersects(asq, gb.skip(nb - j)),
            decreases nb + 1 - jj,
        {
            let ti = nb - jj;
            let ghost bsq = gb.skip(ti as int);
            proof {
                if pi < na {
                    assert(asq[0] == ga[pi as int]);
                    assert(ga[pi as int] == a@[pi as int]@);
                    assert(asq.skip(1) =~= ga.skip(pi + 1));
                }
                if ti < nb {
                    assert(bsq[0] == gb[ti as int]);
                    assert(gb[ti as int] == b@[ti as int]@);
                    assert(bsq.skip(1) =~= gb.skip(ti + 1));
                }
            }
            let v: bool;
            if pi == na && ti == nb {
                v = true;
                proof {
                    assert(v == seq_intersects(asq, bsq));
                }
            } else if pi == na {
                let head_dd = is_double_wild(&b[ti]);
                let rest = row[jj - 1];
                v = head_dd && rest;
                proof {
                    assert(row@[jj - 1] == seq_intersects(asq, gb.skip(ti + 1)));
                    assert(v == seq_intersects(asq, bsq));
                }
            } else if ti == nb {
                let head_dd = is_double_wild(&a[pi]);
                let rest = rows[0][nb];
                v = head_dd && rest;
                proof {
                    assert(rows@[0]@[nb as int] == seq_intersects(ga.skip(pi + 1), bsq));
                    assert(v == seq_intersects(asq, bsq));
                }
            } else if is_double_wild(&a[pi]) || is_double_wild(&b[ti]) {
                let skip_a = rows[0][ti];
                let skip_b = row[jj - 1];
                v = skip_a || skip_b;
                proof {
                    assert(rows@[0]@[ti as int] == seq_intersects(ga.skip(pi + 1), bsq));
                    assert(row@[jj - 1] == seq_intersects(asq, gb.skip(ti + 1)));
                    assert(v == seq_intersects(asq, bsq));
                }
            } else {
                let heads = chunk_intersects_exec(&a[pi], &b[ti]);
                let rest = rows[0][ti + 1];
                v = heads && rest;
                proof {
                    assert(rows@[0]@[ti + 1] == seq_intersects(ga.skip(pi + 1), gb.skip(ti + 1)));
                    assert(v == seq_intersects(asq, bsq));
                }
            }
            row.push(v);
            proof {
                assert(row@[jj as int] == seq_intersects(asq, gb.skip(nb - (jj as int))));
            }
            jj = jj + 1;
        }
        let mut ordered: Vec<bool> = Vec::new();
        let mut j2: usize = 0;
        while j2 <= nb
            invariant
                0 <= j2 <= nb + 1,
                nb == b@.len(),
                row@.len() == nb + 1,
                asq == ga.skip(pi as int),
                forall|j: int|
                    0 <= j <= nb ==> #[trigger] row@[j] == seq_intersects(asq, gb.skip(nb - j)),
                ordered@.len() == j2,
                forall|j: int|
                    0 <= j < j2 ==> #[trigger] ordered@[j] == seq_intersects(asq, gb.skip(j)),
            decreases nb + 1 - j2,
        {
            ordered.push(row[nb - j2]);
            j2 = j2 + 1;
        }
        let ghost old_rows = rows@;
        rows.insert(0, ordered);
        proof {
            assert forall|k: int| 0 <= k < ii + 1 implies #[trigger] rows@[k]@.len() == nb + 1 by {
                if k == 0 {
                    assert(rows@[0] == ordered);
                } else {
                    assert(rows@[k] == old_rows[k - 1]);
                }
            }
            assert forall|k: int, j: int|
                0 <= k < ii + 1 && 0 <= j <= nb implies #[trigger] rows@[k]@[j] == seq_intersects(
                ga.skip(pi + k),
                gb.skip(j),
            ) by {
                if k == 0 {
                    assert(rows@[0] == ordered);
                } else {
                    assert(rows@[k] == old_rows[k - 1]);
                    assert(old_rows[k - 1]@[j] == seq_intersects(ga.skip(pi + 1 + (k - 1)), gb.skip(j)));
                }
            }
        }
        ii = ii + 1;
    }
    proof {
        assert(rows@[0]@[0] == seq_intersects(ga.skip(0), gb.skip(0)));
        assert(ga.skip(0) =~= ga);
        assert(gb.skip(0) =~= gb);
    }
    rows[0][0]
}

/// Decides `seq_includes` by a table over positions of `a` and `b`.
pub(crate) fn seq_includes_exec(a: &Vec<Vec<char>>, b: &Vec<Vec<char>>) -> (r: bool)
    requires
        a@.len() < usize::MAX,
        b@.len() < usize::MAX,
        forall|k: int| 0 <= k < a@.len() ==> #[trigger] a@[k]@.len() < usize::MAX,
        forall|k: int| 0 <= k < b@.len() ==> #[trigger] b@[k]@.len() < usize::MAX,
    ensures
        r == seq_includes(chunk_views(a@), chunk_views(b@)),
{
    let ghost ga = chunk_views(a@);
    let ghost gb = chunk_views(b@);
    let na = a.len();
    let nb = b.len();
    let mut rows: Vec<Vec<bool>> = Vec::new();
    let mut ii: usize = 0;
    while ii <= na
        invariant
            0 <= ii <= na + 1,
            na == a@.len(),
            nb == b@.len(),
            ga == chunk_views(a@),
            gb == chunk_views(b@),
            rows@.len() == ii,
            forall|k: int| 0 <= k < ii ==> #[trigger] rows@[k]@.len() == nb + 1,
            forall|k: int, j: int|
                0 <= k < ii && 0 <= j <= nb ==> #[trigger] rows@[k]@[j] == seq_includes(
                    ga.skip(na - ii + 1 + k),
                    gb.skip(j),
                ),
        decreases na + 1 - ii,
    {
        let pi = na - ii;
        let ghost asq = ga.skip(pi as int);
        let mut row: Vec<bool> = Vec::new();
        let mut jj: usize = 0;
        while jj <= nb
            invariant
                0 <= jj <= nb + 1,
                na == a@.len(),
                nb == b@.len(),
                ga == chunk_views(a@),
                gb == chunk_views(b@),
                pi == na - ii,
                0 <= ii <= na,
                asq == ga.skip(pi as int),
                rows@.len() == ii,
                forall|k: int| 0 <= k < ii ==> #[trigger] rows@[k]@.len() == nb + 1,
                forall|k: int, j: int|
                    0 <= k < ii && 0 <= j <= nb ==> #[trigger] rows@[k]@[j] == seq_includes(
                        ga.skip(pi + 1 + k),
                        gb.skip(j),
                    ),
                row@.len() == jj,
                forall|j: int|
                    0 <= j < jj ==> #[trigger] row@[j] == seq_includes(asq, gb.skip(nb - j)),
            decreases nb + 1 - jj,
        {
            let ti = nb - jj;
            let ghost bsq = gb.skip(ti as int);
            proof {
                if pi < na {
                    assert(asq[0] == ga[pi as int]);
                    assert(ga[pi as int] == a@[pi as int]@);
                    assert(asq.skip(1) =~= ga.skip(pi + 1));
                }
                if ti < nb {
                    assert(bsq[0] == gb[ti as int]);
                    assert(gb[ti as int] == b@[ti as int]@);
                    assert(bsq.skip(1) =~= gb.skip(ti + 1));
                }
            }
            let v: bool;
            if pi == na {
                v = ti == nb;
                proof {
                    assert(v == seq_includes(asq, bsq));
                }
            } else if is_double_wild(&a[pi]) {
                let drop_wild = rows[0][ti];
                let absorb = if ti < nb {
                    row[jj - 1]
                } else {
                    false
                };
                v = drop_wild || absorb;
                proof {
                    assert(rows@[0]@[ti as int] == seq_includes(ga.skip(pi + 1), bsq));
                    if ti < nb {
                        assert(row@[jj - 1] == seq_includes(asq, gb.skip(ti + 1)));
                    }
                    assert(v == seq_includes(asq, bsq));
                }
            } else if ti == nb {
                v = false;
                proof {
                    assert(v == seq_includes(asq, bsq));
                }
            } else if is_double_wild(&b[ti]) {
                v = false;
                proof {
                    assert(v == seq_includes(asq, bsq));
                }
            } else {
                let heads = chunk_includes_exec(&a[pi], &b[ti]);
                let rest = rows[0][ti + 1];
                v = heads && rest;
                proof {
                    assert(rows@[0]@[ti + 1] == seq_includes(ga.skip(pi + 1), gb.skip(ti + 1)));
                    assert(v == seq_includes(asq, bsq));
                }
            }
            row.push(v);
            proof {
                assert(row@[jj as int] == seq_includes(asq, gb.skip(nb - (jj as int))));
            }
            jj = jj + 1;
        }
        let mut ordered: Vec<bool> = Vec::new();
        let mut j2: usize = 0;
        while j2 <= nb
            invariant
                0 <= j2 <= nb + 1,
                nb == b@.len(),
                row@.len() == nb + 1,
                asq == ga.skip(pi as int),
                forall|j: int|
                    0 <= j <= nb ==> #[trigger] row@[j] == seq_includes(asq, gb.skip(nb - j)),
                ordered@.len() == j2,
                forall|j: int|
                    0 <= j < j2 ==> #[trigger] ordered@[j] == seq_includes(asq, gb.skip(j)),
            decreases nb + 1 - j2,
        {
            ordered.push(row[nb - j2]);
            j2 = j2 + 1;
        }
        let ghost old_rows = rows@;
        rows.insert(0, ordered);
        proof {
            assert forall|k: int| 0 <= k < ii + 1 implies #[trigger] rows@[k]@.len() == nb + 1 by {
                if k == 0 {
                    assert(rows@[0] == ordered);
                } else {
                    assert(rows@[k] == old_rows[k - 1]);
                }
            }
            assert forall|k: int, j: int|
                0 <= k < ii + 1 && 0 <= j <= nb implies #[trigger] rows@[k]@[j] == seq_includes(
                ga.skip(pi + k),
                gb.skip(j),
            ) by {
                if k == 0 {
                    assert(rows@[0] == ordered);
                } else {
                    assert(rows@[k] == old_rows[k - 1]);
                    assert(old_rows[k - 1]@[j] == seq_includes(ga.skip(pi + 1 + (k - 1)), gb.skip(j)));
                }
            }
        }
        ii = ii + 1;
    }
    proof {
        assert(rows@[0]@[0] == seq_includes(ga.skip(0), gb.skip(0)));
        assert(ga.skip(0) =~= ga);
        assert(gb.skip(0) =~= gb);
    }
    rows[0][0]
}

} // verus!
