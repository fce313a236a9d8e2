//! The key-expression grammar and its canonical-form invariants, together
//! with the validator that decides them chunk by chunk.
use vstd::prelude::*;
use crate::chunks::{chunk_views, chunks_of};

verus! {

/// The chunk `**`, matching zero or more whole chunks.
pub open spec fn double_wild() -> Seq<char> {
    seq!['*', '*']
}

/// The chunk `*`, matching exactly one whole chunk.
pub open spec fn single_wild() -> Seq<char> {
    seq!['*']
}

/// The two-character unit `$*`, matching any substring within one chunk.
pub open spec fn dollar_star() -> Seq<char> {
    seq!['$', '*']
}

/// Whether `c` holds two adjacent `*` characters somewhere.
pub open spec fn has_double_star(c: Seq<char>) -> bool {
    exists|i: int| 0 <= i && i + 1 < c.len() && #[trigger] c[i] == '*' && c[i + 1] == '*'
}

/// The canonical-form conditions local to one chunk: the chunk is non-empty,
/// it is not the bare `$*` (which must have been rewritten to `*`), `**`
/// never mixes with other text, the characters `#`, `?` and `/` are absent,
/// every `$` begins a `$*` unit, and `$*` is never followed by another `$`.
pub open spec fn chunk_ok(c: Seq<char>) -> bool {
    &&& c.len() > 0
    &&& c != dollar_star()
    &&& (has_double_star(c) ==> c == double_wild())
    &&& (forall|i: int| 0 <= i < c.len() ==> #[trigger] c[i] != '#' && c[i] != '?' && c[i] != '/')
    &&& (forall|i: int| 0 <= i < c.len() && #[trigger] c[i] == '$' ==> i + 1 < c.len() && c[i + 1] == '*')
    &&& (forall|i: int| 0 <= i < c.len() && #[trigger] c[i] == '$' && i + 2 < c.len() ==> c[i + 2] != '$')
}

/// The canonical-form conditions that relate neighbouring chunks: no `**`
/// is followed by another `**` (they collapse) or by a bare `*` (they swap).
pub open spec fn adjacent_ok(cs: Seq<Seq<char>>) -> bool {
    forall|i: int|
        0 <= i && i + 1 < cs.len() && #[trigger] cs[i] == double_wild() ==> cs[i + 1] != double_wild() && cs[i
            + 1] != single_wild()
}

/// A canonical chunk sequence.
pub open spec fn chunks_wf(cs: Seq<Seq<char>>) -> bool {
    &&& cs.len() > 0
    &&& (forall|i: int| 0 <= i < cs.len() ==> chunk_ok(#[trigger] cs[i]))
    &&& adjacent_ok(cs)
}

/// A canonical key-expression text: its chunks form a canonical sequence.
pub open spec fn is_canon(s: Seq<char>) -> bool {
    chunks_wf(chunks_of(s))
}

/// Why a text is not a canonical key expression.
#[derive(Debug, Clone, Copy, PartialEq, Eq, Structural)]
pub enum KeyExprError {
    /// A leading, trailing or doubled separator left an empty chunk.
    EmptyChunk,
    /// A chunk is the bare `$*`, which canonical form writes `*`.
    BareSubstringWildcard,
    /// A `**` chunk directly follows another, which canonical form collapses.
    RepeatedFullWildcard,
    /// A bare `*` directly follows a `**`, which canonical form reorders.
    MisorderedWildcards,
    /// A `**` is concatenated with other text inside one chunk.
    MalformedFullWildcard,
    /// A `#` or `?`, or a `$` that does not begin a `$*` unit, or a `$`
    /// directly after a `$*` unit.
    ForbiddenCharacter,
}

/// The violation that each error reports, over the chunk sequence.
pub open spec fn error_witnessed(e: KeyExprError, cs: Seq<Seq<char>>) -> bool {
    match e {
        KeyExprError::EmptyChunk => exists|i: int| 0 <= i < cs.len() && #[trigger] cs[i].len() == 0,
        KeyExprError::BareSubstringWildcard => exists|i: int|
            0 <= i < cs.len() && #[trigger] cs[i] == dollar_star(),
        KeyExprError::RepeatedFullWildcard => exists|i: int|
            0 <= i && i + 1 < cs.len() && #[trigger] cs[i] == double_wild() && cs[i + 1] == double_wild(),
        KeyExprError::MisorderedWildcards => exists|i: int|
            0 <= i && i + 1 < cs.len() && #[trigger] cs[i] == double_wild() && cs[i + 1] == single_wild(),
        KeyExprError::MalformedFullWildcard => exists|i: int|
            0 <= i < cs.len() && has_double_star(#[trigger] cs[i]) && cs[i] != double_wild(),
        KeyExprError::ForbiddenCharacter => exists|i: int, j: int|
            #![trigger cs[i][j]]
            0 <= i < cs.len() && 0 <= j < cs[i].len() && {
                ||| cs[i][j] == '#'
                ||| cs[i][j] == '?'
                ||| cs[i][j] == '/'
                ||| (cs[i][j] == '$' && !(j + 1 < cs[i].len() && cs[i][j + 1] == '*'))
                ||| (cs[i][j] == '$' && j + 2 < cs[i].len() && cs[i][j + 2] == '$')
            },
    }
}

/// Whether `c` is exactly the chunk `**`.
pub(crate) fn is_double_wild(c: &Vec<char>) -> (r: bool)
    ensures
        r == (c@ == double_wild()),
{
    let r = c.len() == 2 && c[0] == '*' && c[1] == '*';
    proof {
        if r {
            assert(c@ =~= double_wild());
        }
    }
    r
}

/// Whether `c` is exactly the chunk `*`.
pub(crate) fn is_single_wild(c: &Vec<char>) -> (r: bool)
    ensures
        r == (c@ == single_wild()),
{
    let r = c.len() == 1 && c[0] == '*';
    proof {
        if r {
            assert(c@ =~= single_wild());
        }
    }
    r
}

/// Whether `c` is exactly the bare chunk `$*`.
pub(crate) fn is_dollar_star(c: &Vec<char>) -> (r: bool)
    ensures
        r == (c@ == dollar_star()),
{
    let r = c.len() == 2 && c[0] == '$' && c[1] == '*';
    proof {
        if r {
            assert(c@ =~= dollar_star());
        }
    }
    r
}

/// Checks the canonical-form conditions local to one chunk.
fn check_chunk(c: &Vec<char>) -> (r: Result<(), KeyExprError>)
    ensures
        r is Ok <==> chunk_ok(c@),
        r matches Err(e) ==> chunk_error_witnessed(e, c@),
{
    if c.len() == 0 {
        return Err(KeyExprError::EmptyChunk);
    }
    if is_dollar_star(c) {
        return Err(KeyExprError::BareSubstringWildcard);
    }
    let mut j: usize = 0;
    while j < c.len()
        invariant
            0 <= j <= c@.len(),
            forall|l: int| 0 <= l < j ==> #[trigger] c@[l] != '#' && c@[l] != '?' && c@[l] != '/',
            forall|l: int|
                0 <= l < j && #[trigger] c@[l] == '$' ==> l + 1 < c@.len() && c@[l + 1] == '*',
            forall|l: int| 0 <= l < j && #[trigger] c@[l] == '$' && l + 2 < c@.len() ==> c@[l + 2] != '$',
            forall|l: int| 0 <= l < j && l + 1 < c@.len() && #[trigger] c@[l] == '*' && c@[l + 1] == '*'
                ==> c@ == double_wild(),
        decreases c.len() - j,
    {
        let ch = c[j];
        if ch == '#' || ch == '?' || ch == '/' {
            return Err(KeyExprError::ForbiddenCharacter);
        }
        if ch == '$' {
            if j + 1 >= c.len() || c[j + 1] != '*' {
                return Err(KeyExprError::ForbiddenCharacter);
            }
            if j + 2 < c.len() && c[j + 2] == '$' {
                return Err(KeyExprError::ForbiddenCharacter);
            }
        }
        if ch == '*' && j + 1 < c.len() && c[j + 1] == '*' {
            if c.len() != 2 {
                return Err(KeyExprError::MalformedFullWildcard);
            }
            proof {
                assert(c@ =~= double_wild());
            }
        }
        j = j + 1;
    }
    proof {
        if has_double_star(c@) {
            let i = choose|i: int|
                0 <= i && i + 1 < c@.len() && #[trigger] c@[i] == '*' && c@[i + 1] == '*';
            assert(c@ == double_wild());
        }
    }
    Ok(())
}

/// The violation that a chunk-local error reports, over one chunk.
pub open spec fn chunk_error_witnessed(e: KeyExprError, c: Seq<char>) -> bool {
    match e {
        KeyExprError::EmptyChunk => c.len() == 0,
        KeyExprError::BareSubstringWildcard => c == dollar_star(),
        KeyExprError::MalformedFullWildcard => has_double_star(c) && c != double_wild(),
        KeyExprError::ForbiddenCharacter => exists|j: int|
            #![trigger c[j]]
            0 <= j < c.len() && {
                ||| c[j] == '#'
                ||| c[j] == '?'
                ||| c[j] == '/'
                ||| (c[j] == '$' && !(j + 1 < c.len() && c[j + 1] == '*'))
                ||| (c[j] == '$' && j + 2 < c.len() && c[j + 2] == '$')
            },
        _ => false,
    }
}

/// Validates a chunk sequence against the whole grammar, reporting the first
/// violated condition.
pub(crate) fn validate_chunks(cs: &Vec<Vec<char>>) -> (r: Result<(), KeyExprError>)
    requires
        cs@.len() >= 1,
    ensures
        r is Ok <==> chunks_wf(chunk_views(cs@)),
        r matches Err(e) ==> error_witnessed(e, chunk_views(cs@)),
{
    let ghost views = chunk_views(cs@);
    let mut i: usize = 0;
    while i < cs.len()
        invariant
            0 <= i <= cs@.len(),
            forall|k: int| 0 <= k < i ==> chunk_ok(#[trigger] views[k]),
            forall|k: int|
                0 <= k && k + 1 < cs@.len() && k + 1 < i && #[trigger] views[k] == double_wild() ==> views[k
                    + 1] != double_wild() && views[k + 1] != single_wild(),
        decreases cs.len() - i,
    {
        if i > 0 && is_double_wild(&cs[i - 1]) {
            proof {
                assert(views[i - 1] == cs@[i - 1]@);
                assert(views[i as int] == cs@[i as int]@);
            }
            if is_double_wild(&cs[i]) {
                proof {
                    assert(!adjacent_ok(views));
                    assert(error_witnessed(KeyExprError::RepeatedFullWildcard, views));
                }
                return Err(KeyExprError::RepeatedFullWildcard);
            }
            if is_single_wild(&cs[i]) {
                proof {
                    assert(!adjacent_ok(views));
                    assert(error_witnessed(KeyExprError::MisorderedWildcards, views));
                }
                return Err(KeyExprError::MisorderedWildcards);
            }
        }
        match check_chunk(&cs[i]) {
            Ok(()) => {},
            Err(e) => {
                proof {
                    assert(views[i as int] == cs@[i as int]@);
                }
                return Err(e);
            },
        }
        i = i + 1;
    }
    Ok(())
}

/// A leading run of a canonical chunk sequence is canonical.
pub proof fn lemma_wf_take(cs: Seq<Seq<char>>, k: int)
    requires
        chunks_wf(cs),
        1 <= k <= cs.len(),
    ensures
        chunks_wf(cs.take(k)),
{
    let pre = cs.take(k);
    assert forall|i: int| 0 <= i < pre.len() implies chunk_ok(#[trigger] pre[i]) by {
        assert(pre[i] == cs[i]);
        assert(chunk_ok(cs[i]));
    }
    assert forall|i: int|
        0 <= i && i + 1 < pre.len() && #[trigger] pre[i] == double_wild() implies pre[i + 1]
        != double_wild() && pre[i + 1] != single_wild() by {
        assert(pre[i] == cs[i]);
        assert(pre[i + 1] == cs[i + 1]);
    }
}

/// A trailing run of a canonical chunk sequence is canonical.
pub proof fn lemma_wf_skip(cs: Seq<Seq<char>>, k: int)
    requires
        chunks_wf(cs),
        0 <= k < cs.len(),
    ensures
        chunks_wf(cs.skip(k)),
{
    let post = cs.skip(k);
    assert forall|i: int| 0 <= i < post.len() implies chunk_ok(#[trigger] post[i]) by {
        assert(post[i] == cs[k + i]);
        assert(chunk_ok(cs[k + i]));
    }
    assert forall|i: int|
        0 <= i && i + 1 < post.len() && #[trigger] post[i] == double_wild() implies post[i + 1]
        != double_wild() && post[i + 1] != single_wild() by {
        assert(post[i] == cs[k + i]);
        assert(post[i + 1] == cs[k + i + 1]);
    }
}

/// The lone chunk `**` is a canonical chunk sequence of its own.
pub proof fn lemma_double_wild_wf()
    ensures
        chunks_wf(seq![double_wild()]),
{
    let c = double_wild();
    assert(c.len() == 2);
    assert(c[0] == '*');
    assert(c[1] == '*');
    assert(c != dollar_star());
    assert(forall|i: int| 0 <= i < c.len() ==> #[trigger] c[i] == '*');
    assert(chunk_ok(c));
    assert(seq![double_wild()][0] == c);
}

} // verus!
