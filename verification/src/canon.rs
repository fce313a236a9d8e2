//! The canonicalizer: rewrites a chunk sequence toward canonical form by
//! replacing bare `$*` chunks with `*`, collapsing runs of `**`, and moving
//! every `*` of a wildcard run in front of the single `**` that closes it.
use vstd::prelude::*;
use crate::chunks::{chunk_views, chunks_of, join_chunks};
use crate::grammar::{
    adjacent_ok, chunk_ok, chunks_wf, dollar_star, double_wild, is_canon, is_dollar_star,
    is_double_wild, is_single_wild, single_wild,
};

verus! {

/// A bare `$*` chunk denotes the same set as `*`; all other chunks stay.
pub open spec fn norm_chunk(c: Seq<char>) -> Seq<char> {
    if c == dollar_star() {
        single_wild()
    } else {
        c
    }
}

/// The canonical rewriting of a chunk sequence.
pub open spec fn canon_chunks(cs: Seq<Seq<char>>) -> Seq<Seq<char>>
    decreases cs.len(), 0int,
{
    if cs.len() == 0 {
        cs
    } else if cs[0] == double_wild() {
        canon_wild(cs.skip(1))
    } else {
        seq![norm_chunk(cs[0])] + canon_chunks(cs.skip(1))
    }
}

/// The rest of a wildcard run opened by a `**`: every following `*` (or bare
/// `$*`) is emitted first, further `**` collapse, and a single `**` closes
/// the run before the remainder is rewritten.
pub open spec fn canon_wild(cs: Seq<Seq<char>>) -> Seq<Seq<char>>
    decreases cs.len(), 1int,
{
    if cs.len() > 0 && norm_chunk(cs[0]) == single_wild() {
        seq![single_wild()] + canon_wild(cs.skip(1))
    } else if cs.len() > 0 && cs[0] == double_wild() {
        canon_wild(cs.skip(1))
    } else {
        seq![double_wild()] + canon_chunks(cs)
    }
}

/// The canonical form of a text: its chunks rewritten, then joined back.
pub open spec fn spec_canon(s: Seq<char>) -> Seq<char> {
    join_chunks(canon_chunks(chunks_of(s)))
}

/// Rewriting never introduces a separator into a chunk.
pub proof fn lemma_canon_no_slash(cs: Seq<Seq<char>>)
    requires
        forall|i: int, j: int| 0 <= i < cs.len() && 0 <= j < cs[i].len() ==> cs[i][j] != '/',
    ensures
        canon_chunks(cs).len() >= 1 || cs.len() == 0,
        forall|i: int, j: int|
            0 <= i < canon_chunks(cs).len() && 0 <= j < canon_chunks(cs)[i].len() ==> canon_chunks(
                cs,
            )[i][j] != '/',
    decreases cs.len(), 0int,
{
    if cs.len() == 0 {
    } else if cs[0] == double_wild() {
        lemma_canon_wild_no_slash(cs.skip(1));
    } else {
        lemma_canon_no_slash(cs.skip(1));
        let out = canon_chunks(cs);
        assert forall|i: int, j: int|
            0 <= i < out.len() && 0 <= j < out[i].len() implies out[i][j] != '/' by {
            if i == 0 {
                assert(out[0] == norm_chunk(cs[0]));
            } else {
                assert(out[i] == canon_chunks(cs.skip(1))[i - 1]);
            }
        }
    }
}

pub proof fn lemma_canon_wild_no_slash(cs: Seq<Seq<char>>)
    requires
        forall|i: int, j: int| 0 <= i < cs.len() && 0 <= j < cs[i].len() ==> cs[i][j] != '/',
    ensures
        canon_wild(cs).len() >= 1,
        forall|i: int, j: int|
            0 <= i < canon_wild(cs).len() && 0 <= j < canon_wild(cs)[i].len() ==> canon_wild(
                cs,
            )[i][j] != '/',
    decreases cs.len(), 1int,
{
    if cs.len() > 0 && norm_chunk(cs[0]) == single_wild() {
        lemma_canon_wild_no_slash(cs.skip(1));
        let out = canon_wild(cs);
        assert forall|i: int, j: int|
            0 <= i < out.len() && 0 <= j < out[i].len() implies out[i][j] != '/' by {
            if i >= 1 {
                assert(out[i] == canon_wild(cs.skip(1))[i - 1]);
            }
        }
    } else if cs.len() > 0 && cs[0] == double_wild() {
        lemma_canon_wild_no_slash(cs.skip(1));
    } else {
        lemma_canon_no_slash(cs);
        let out = canon_wild(cs);
        assert forall|i: int, j: int|
            0 <= i < out.len() && 0 <= j < out[i].len() implies out[i][j] != '/' by {
            if i >= 1 {
                assert(out[i] == canon_chunks(cs)[i - 1]);
            }
        }
    }
}

/// Rewriting an already-canonical chunk sequence changes nothing.
pub proof fn lemma_canon_wf_id(cs: Seq<Seq<char>>)
    requires
        forall|i: int| 0 <= i < cs.len() ==> chunk_ok(#[trigger] cs[i]),
        adjacent_ok(cs),
    ensures
        canon_chunks(cs) == cs,
    decreases cs.len(),
{
    if cs.len() == 0 {
    } else {
        assert(chunk_ok(cs[0]));
        assert(forall|i: int| 0 <= i < cs.skip(1).len() ==> chunk_ok(#[trigger] cs.skip(1)[i]));
        assert(adjacent_ok(cs.skip(1))) by {
            assert(forall|i: int|
                0 <= i && i + 1 < cs.skip(1).len() && #[trigger] cs.skip(1)[i] == double_wild()
                    ==> cs.skip(1)[i + 1] != double_wild() && cs.skip(1)[i + 1] != single_wild());
        }
        lemma_canon_wf_id(cs.skip(1));
        if cs[0] == double_wild() {
            let rest = cs.skip(1);
            if rest.len() == 0 {
                assert(canon_wild(rest) =~= cs);
            } else {
                assert(cs[1] != double_wild() && cs[1] != single_wild());
                assert(rest[0] == cs[1]);
                assert(chunk_ok(rest[0]));
                assert(rest[0] != dollar_star());
                assert(norm_chunk(rest[0]) == rest[0]);
                assert(canon_wild(rest) == seq![double_wild()] + canon_chunks(rest));
                assert(canon_wild(rest) =~= cs);
            }
        } else {
            assert(cs[0] != dollar_star());
            assert(norm_chunk(cs[0]) == cs[0]);
            assert(canon_chunks(cs) =~= cs);
        }
    }
}

/// A canonical text is a fixed point of canonicalization: this is what makes
/// canonicalization idempotent.
pub proof fn lemma_canon_of_canonical(s: Seq<char>)
    requires
        is_canon(s),
    ensures
        spec_canon(s) == s,
{
    lemma_canon_wf_id(chunks_of(s));
    crate::chunks::lemma_join_chunks_of(s);
}

/// Canonicalization is idempotent: when a text canonicalizes successfully
/// (its rewriting passes validation), rewriting the result changes nothing.
pub proof fn lemma_canon_idempotent(s: Seq<char>)
    requires
        is_canon(spec_canon(s)),
    ensures
        spec_canon(spec_canon(s)) == spec_canon(s),
{
    lemma_canon_of_canonical(spec_canon(s));
}

/// Rewrites a chunk sequence into canonical shape.
pub(crate) fn canonize_chunks(cs: &Vec<Vec<char>>) -> (r: Vec<Vec<char>>)
    ensures
        chunk_views(r@) == canon_chunks(chunk_views(cs@)),
{
    let ghost views = chunk_views(cs@);
    let mut r: Vec<Vec<char>> = Vec::new();
    let mut i: usize = 0;
    proof {
        assert(views.skip(0) =~= views);
        assert(chunk_views(r@) + canon_chunks(views) =~= canon_chunks(views));
    }
    while i < cs.len()
        invariant
            0 <= i <= cs@.len(),
            canon_chunks(views) == chunk_views(r@) + canon_chunks(views.skip(i as int)),
        decreases cs.len() - i,
    {
        let ghost old_r = r@;
        if is_double_wild(&cs[i]) {
            proof {
                assert(views.skip(i as int)[0] == views[i as int]);
                assert(views.skip(i as int).skip(1) =~= views.skip(i + 1));
                assert(canon_chunks(views.skip(i as int)) == canon_wild(views.skip(i + 1)));
            }
            let mut j: usize = i + 1;
            while j < cs.len() && (is_double_wild(&cs[j]) || is_single_wild(&cs[j])
                || is_dollar_star(&cs[j]))
                invariant
                    i < j <= cs@.len(),
                    canon_chunks(views) == chunk_views(r@) + canon_wild(views.skip(j as int)),
                decreases cs.len() - j,
            {
                let ghost old_r2 = r@;
                proof {
                    assert(views.skip(j as int)[0] == views[j as int]);
                    assert(views.skip(j as int).skip(1) =~= views.skip(j + 1));
                }
                if is_single_wild(&cs[j]) || is_dollar_star(&cs[j]) {
                    proof {
                        assert(norm_chunk(views[j as int]) == single_wild());
                        assert(canon_wild(views.skip(j as int)) == seq![single_wild()]
                            + canon_wild(views.skip(j + 1)));
                    }
                    let mut star: Vec<char> = Vec::new();
                    star.push('*');
                    proof {
                        assert(star@ =~= single_wild());
                    }
                    r.push(star);
                    proof {
                        assert(chunk_views(r@) =~= chunk_views(old_r2) + seq![single_wild()]);
                        assert(chunk_views(old_r2) + (seq![single_wild()] + canon_wild(
                            views.skip(j + 1),
                        )) =~= chunk_views(r@) + canon_wild(views.skip(j + 1)));
                    }
                } else {
                    proof {
                        assert(views[j as int] == double_wild());
                        assert(canon_wild(views.skip(j as int)) == canon_wild(views.skip(j + 1)));
                    }
                }
                j = j + 1;
            }
            proof {
                assert(views.skip(j as int).len() == views.len() - j);
                if j < cs@.len() {
                    assert(views.skip(j as int)[0] == views[j as int]);
                    assert(norm_chunk(views[j as int]) != single_wild());
                    assert(views[j as int] != double_wild());
                }
                assert(canon_wild(views.skip(j as int)) == seq![double_wild()] + canon_chunks(
                    views.skip(j as int),
                ));
            }
            let ghost old_r3 = r@;
            let mut dd: Vec<char> = Vec::new();
            dd.push('*');
            dd.push('*');
            proof {
                assert(dd@ =~= double_wild());
            }
            r.push(dd);
            proof {
                assert(chunk_views(r@) =~= chunk_views(old_r3) + seq![double_wild()]);
                assert(chunk_views(old_r3) + (seq![double_wild()] + canon_chunks(
                    views.skip(j as int),
                )) =~= chunk_views(r@) + canon_chunks(views.skip(j as int)));
            }
            i = j;
        } else {
            proof {
                assert(views.skip(i as int)[0] == views[i as int]);
                assert(views.skip(i as int).skip(1) =~= views.skip(i + 1));
                assert(canon_chunks(views.skip(i as int)) == seq![norm_chunk(views[i as int])]
                    + canon_chunks(views.skip(i + 1)));
            }
            if is_dollar_star(&cs[i]) {
                let mut star: Vec<char> = Vec::new();
                star.push('*');
                proof {
                    assert(star@ =~= single_wild());
                }
                r.push(star);
            } else {
                let copy = crate::chunks::copy_chars(&cs[i]);
                r.push(copy);
            }
            proof {
                assert(chunk_views(r@) =~= chunk_views(old_r) + seq![norm_chunk(views[i as int])]);
                assert(chunk_views(old_r) + (seq![norm_chunk(views[i as int])] + canon_chunks(
                    views.skip(i + 1),
                )) =~= chunk_views(r@) + canon_chunks(views.skip(i + 1)));
            }
            i = i + 1;
        }
    }
    proof {
        assert(views.skip(cs@.len() as int) =~= Seq::<Seq<char>>::empty());
        assert(canon_chunks(views) =~= chunk_views(r@));
    }
    r
}

} // verus!
