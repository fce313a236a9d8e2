//! Splitting a key expression into its `/`-separated chunks, and joining
//! chunks back into one text. These are the bridge between the textual form
//! of a key expression and the chunk-sequence model that the grammar and the
//! set algebra are stated over.
use vstd::prelude::*;

verus! {

/// The chunks of `s`: the maximal runs of characters between `/` separators.
/// Every text has at least one chunk; separators at the ends or doubled
/// separators yield empty chunks (which the grammar rejects).
pub open spec fn chunks_of(s: Seq<char>) -> Seq<Seq<char>>
    decreases s.len(),
{
    if s.len() == 0 {
        seq![s]
    } else if s[0] == '/' {
        seq![Seq::<char>::empty()] + chunks_of(s.skip(1))
    } else {
        let rest = chunks_of(s.skip(1));
        seq![seq![s[0]] + rest[0]] + rest.skip(1)
    }
}

/// Chunks joined back into one text with a single `/` between neighbours.
pub open spec fn join_chunks(cs: Seq<Seq<char>>) -> Seq<char>
    decreases cs.len(),
{
    if cs.len() == 0 {
        Seq::empty()
    } else if cs.len() == 1 {
        cs[0]
    } else {
        cs[0] + seq!['/'] + join_chunks(cs.skip(1))
    }
}

/// The views of a vector of chunk vectors held by executable code.
pub open spec fn chunk_views(v: Seq<Vec<char>>) -> Seq<Seq<char>> {
    Seq::new(v.len(), |i: int| v[i]@)
}

pub proof fn lemma_chunks_of_len(s: Seq<char>)
    ensures
        chunks_of(s).len() >= 1,
    decreases s.len(),
{
    if s.len() == 0 {
    } else {
        lemma_chunks_of_len(s.skip(1));
    }
}

pub proof fn lemma_chunks_no_slash(s: Seq<char>)
    ensures
        forall|i: int, j: int|
            0 <= i < chunks_of(s).len() && 0 <= j < chunks_of(s)[i].len() ==> chunks_of(
                s,
            )[i][j] != '/',
    decreases s.len(),
{
    if s.len() == 0 {
    } else if s[0] == '/' {
        lemma_chunks_no_slash(s.skip(1));
        lemma_chunks_of_len(s.skip(1));
        assert forall|i: int, j: int|
            0 <= i < chunks_of(s).len() && 0 <= j < chunks_of(s)[i].len() implies chunks_of(
            s,
        )[i][j] != '/' by {
            if i >= 1 {
                assert(chunks_of(s)[i] == chunks_of(s.skip(1))[i - 1]);
            }
        }
    } else {
        lemma_chunks_no_slash(s.skip(1));
        lemma_chunks_of_len(s.skip(1));
        let rest = chunks_of(s.skip(1));
        assert forall|i: int, j: int|
            0 <= i < chunks_of(s).len() && 0 <= j < chunks_of(s)[i].len() implies chunks_of(
            s,
        )[i][j] != '/' by {
            if i == 0 {
                assert(chunks_of(s)[0] == seq![s[0]] + rest[0]);
                if j >= 1 {
                    assert(chunks_of(s)[0][j] == rest[0][j - 1]);
                }
            } else {
                assert(chunks_of(s)[i] == rest.skip(1)[i - 1]);
            }
        }
    }
}

/// A text has at most one chunk more than it has characters.
pub proof fn lemma_chunks_count(s: Seq<char>)
    ensures
        chunks_of(s).len() <= s.len() + 1,
    decreases s.len(),
{
    if s.len() == 0 {
    } else {
        lemma_chunks_count(s.skip(1));
        lemma_chunks_of_len(s.skip(1));
    }
}

/// No chunk is longer than the text it came from.
pub proof fn lemma_chunk_lens(s: Seq<char>)
    ensures
        forall|i: int| 0 <= i < chunks_of(s).len() ==> #[trigger] chunks_of(s)[i].len() <= s.len(),
    decreases s.len(),
{
    if s.len() == 0 {
    } else if s[0] == '/' {
        lemma_chunk_lens(s.skip(1));
        lemma_chunks_of_len(s.skip(1));
        assert forall|i: int| 0 <= i < chunks_of(s).len() implies #[trigger] chunks_of(
            s,
        )[i].len() <= s.len() by {
            if i >= 1 {
                assert(chunks_of(s)[i] == chunks_of(s.skip(1))[i - 1]);
            }
        }
    } else {
        lemma_chunk_lens(s.skip(1));
        lemma_chunks_of_len(s.skip(1));
        let rest = chunks_of(s.skip(1));
        assert forall|i: int| 0 <= i < chunks_of(s).len() implies #[trigger] chunks_of(
            s,
        )[i].len() <= s.len() by {
            if i == 0 {
                assert(chunks_of(s)[0] == seq![s[0]] + rest[0]);
            } else {
                assert(chunks_of(s)[i] == rest.skip(1)[i - 1]);
            }
        }
    }
}

/// A text with no separator is a single chunk.
pub proof fn lemma_chunks_of_no_slash_id(s: Seq<char>)
    requires
        forall|i: int| 0 <= i < s.len() ==> s[i] != '/',
    ensures
        chunks_of(s) == seq![s],
    decreases s.len(),
{
    if s.len() == 0 {
    } else {
        lemma_chunks_of_no_slash_id(s.skip(1));
        let rest = chunks_of(s.skip(1));
        assert(seq![s[0]] + rest[0] =~= s);
        assert(rest.skip(1) =~= Seq::<Seq<char>>::empty());
        assert(chunks_of(s) =~= seq![s]);
    }
}

/// Splitting off the first chunk: a separator-free prefix followed by `/`.
pub proof fn lemma_chunks_of_split(c: Seq<char>, t: Seq<char>)
    requires
        forall|i: int| 0 <= i < c.len() ==> c[i] != '/',
    ensures
        chunks_of(c + seq!['/'] + t) == seq![c] + chunks_of(t),
    decreases c.len(),
{
    let s = c + seq!['/'] + t;
    if c.len() == 0 {
        assert(s =~= seq!['/'] + t);
        assert(s[0] == '/');
        assert(s.skip(1) =~= t);
        assert(c =~= Seq::<char>::empty());
        assert(chunks_of(s) =~~= seq![c] + chunks_of(t));
    } else {
        assert(s[0] == c[0]);
        assert(s.skip(1) =~= c.skip(1) + seq!['/'] + t);
        lemma_chunks_of_split(c.skip(1), t);
        let rest = chunks_of(s.skip(1));
        assert(rest == seq![c.skip(1)] + chunks_of(t));
        assert(rest[0] == c.skip(1));
        assert(seq![s[0]] + rest[0] =~= c);
        lemma_chunks_of_len(t);
        assert(rest.skip(1) =~= chunks_of(t));
        assert(chunks_of(s) =~= seq![c] + chunks_of(t));
    }
}

/// Joining the chunks of a text gives the text back.
pub proof fn lemma_join_chunks_of(s: Seq<char>)
    ensures
        join_chunks(chunks_of(s)) == s,
    decreases s.len(),
{
    if s.len() == 0 {
    } else if s[0] == '/' {
        lemma_join_chunks_of(s.skip(1));
        lemma_chunks_of_len(s.skip(1));
        let cs = chunks_of(s);
        assert(cs.skip(1) =~= chunks_of(s.skip(1)));
        assert(join_chunks(cs) =~= s);
    } else {
        lemma_join_chunks_of(s.skip(1));
        lemma_chunks_of_len(s.skip(1));
        let rest = chunks_of(s.skip(1));
        let cs = chunks_of(s);
        assert(cs[0] == seq![s[0]] + rest[0]);
        if rest.len() == 1 {
            assert(cs.len() == 1);
            assert(join_chunks(rest) == rest[0]);
            assert(join_chunks(cs) =~= s);
        } else {
            assert(cs.skip(1) =~= rest.skip(1));
            assert(join_chunks(cs) == cs[0] + seq!['/'] + join_chunks(rest.skip(1)));
            assert(join_chunks(rest) == rest[0] + seq!['/'] + join_chunks(rest.skip(1)));
            assert(join_chunks(rest) == s.skip(1));
            assert(s.skip(1) == rest[0] + seq!['/'] + join_chunks(rest.skip(1)));
            assert(s =~= seq![s[0]] + s.skip(1));
            assert(seq![s[0]] + (rest[0] + seq!['/'] + join_chunks(rest.skip(1))) =~= (seq![s[0]]
                + rest[0]) + seq!['/'] + join_chunks(rest.skip(1)));
            assert(join_chunks(cs) =~= s);
        }
    }
}

/// Splitting a join gives the chunks back, as long as no chunk holds a
/// separator of its own.
pub proof fn lemma_chunks_of_join(cs: Seq<Seq<char>>)
    requires
        cs.len() >= 1,
        forall|i: int, j: int| 0 <= i < cs.len() && 0 <= j < cs[i].len() ==> cs[i][j] != '/',
    ensures
        chunks_of(join_chunks(cs)) == cs,
    decreases cs.len(),
{
    if cs.len() == 1 {
        assert(forall|j: int| 0 <= j < cs[0].len() ==> cs[0][j] != '/');
        lemma_chunks_of_no_slash_id(cs[0]);
        assert(chunks_of(join_chunks(cs)) =~= cs);
    } else {
        assert(forall|i: int, j: int|
            0 <= i < cs.skip(1).len() && 0 <= j < cs.skip(1)[i].len() ==> cs.skip(1)[i][j] != '/');
        lemma_chunks_of_join(cs.skip(1));
        assert(forall|j: int| 0 <= j < cs[0].len() ==> cs[0][j] != '/');
        lemma_chunks_of_split(cs[0], join_chunks(cs.skip(1)));
        assert(chunks_of(join_chunks(cs)) =~= seq![cs[0]] + cs.skip(1));
        assert(seq![cs[0]] + cs.skip(1) =~= cs);
    }
}

/// How a join grows when one more chunk is appended.
pub proof fn lemma_join_snoc(cs: Seq<Seq<char>>, k: int)
    requires
        1 <= k < cs.len(),
    ensures
        join_chunks(cs.take(k + 1)) == join_chunks(cs.take(k)) + seq!['/'] + cs[k],
    decreases k,
{
    if k == 1 {
        let two = cs.take(2);
        assert(two.skip(1) =~= seq![cs[1]]);
        assert(join_chunks(two.skip(1)) == cs[1]);
        assert(join_chunks(cs.take(1)) == cs[0]);
        assert(join_chunks(two) =~= join_chunks(cs.take(1)) + seq!['/'] + cs[1]);
    } else {
        lemma_join_snoc(cs.skip(1), k - 1);
        assert(cs.take(k + 1).skip(1) =~= cs.skip(1).take(k));
        assert(cs.take(k).skip(1) =~= cs.skip(1).take(k - 1));
        assert(join_chunks(cs.take(k + 1)) == cs[0] + seq!['/'] + join_chunks(cs.skip(1).take(k)));
        assert(join_chunks(cs.take(k)) == cs[0] + seq!['/'] + join_chunks(cs.skip(1).take(k - 1)));
        assert(cs.skip(1)[k - 1] == cs[k]);
        assert(cs[0] + seq!['/'] + (join_chunks(cs.skip(1).take(k - 1)) + seq!['/'] + cs[k]) =~= (cs[0]
            + seq!['/'] + join_chunks(cs.skip(1).take(k - 1))) + seq!['/'] + cs[k]);
    }
}

/// Splits a text, given as its characters, into its chunks.
pub(crate) fn split_chunks(s: &Vec<char>) -> (r: Vec<Vec<char>>)
    ensures
        chunk_views(r@) == chunks_of(s@),
        r@.len() >= 1,
{
    let ghost whole = s@;
    let mut r: Vec<Vec<char>> = Vec::new();
    let mut cur: Vec<char> = Vec::new();
    let mut i: usize = 0;
    proof {
        assert(cur@ + whole.skip(0) =~= whole);
        assert(chunk_views(r@) + chunks_of(whole) =~= chunks_of(whole));
    }
    while i < s.len()
        invariant
            0 <= i <= s.len(),
            forall|j: int| 0 <= j < cur@.len() ==> cur@[j] != '/',
            chunks_of(whole) == chunk_views(r@) + chunks_of(cur@ + whole.skip(i as int)),
        decreases s.len() - i,
    {
        let ghost old_r = r@;
        let ghost old_cur = cur@;
        let c = s[i];
        if c == '/' {
            proof {
                lemma_chunks_of_split(old_cur, whole.skip(i + 1));
                assert(old_cur + whole.skip(i as int) =~= old_cur + seq!['/'] + whole.skip(i + 1));
            }
            r.push(cur);
            cur = Vec::new();
            proof {
                assert(chunk_views(r@) =~= chunk_views(old_r) + seq![old_cur]);
                assert(cur@ + whole.skip(i + 1) =~= whole.skip(i + 1));
                assert(chunks_of(whole) =~= chunk_views(r@) + chunks_of(cur@ + whole.skip(i + 1)));
            }
        } else {
            cur.push(c);
            proof {
                assert(cur@ + whole.skip(i + 1) =~= old_cur + whole.skip(i as int));
            }
        }
        i = i + 1;
    }
    proof {
        assert(cur@ + whole.skip(i as int) =~= cur@);
        lemma_chunks_of_no_slash_id(cur@);
    }
    let ghost old_r = r@;
    let ghost old_cur = cur@;
    r.push(cur);
    proof {
        assert(chunk_views(r@) =~= chunk_views(old_r) + seq![old_cur]);
        assert(chunk_views(r@) =~= chunks_of(whole));
    }
    r
}

/// Appends the characters of `src` to `dst`.
pub(crate) fn push_all(dst: &mut Vec<char>, src: &Vec<char>)
    ensures
        final(dst)@ == old(dst)@ + src@,
{
    let ghost base = old(dst)@;
    let mut j: usize = 0;
    while j < src.len()
        invariant
            0 <= j <= src.len(),
            dst@ == base + src@.take(j as int),
        decreases src.len() - j,
    {
        dst.push(src[j]);
        proof {
            assert(base + src@.take(j + 1) =~= (base + src@.take(j as int)).push(src@[j as int]));
        }
        j = j + 1;
    }
    proof {
        assert(base + src@.take(src@.len() as int) =~= base + src@);
    }
}

/// Joins chunks into one text with `/` separators.
pub(crate) fn join_exec(cs: &Vec<Vec<char>>) -> (r: Vec<char>)
    ensures
        r@ == join_chunks(chunk_views(cs@)),
{
    let ghost views = chunk_views(cs@);
    let mut r: Vec<char> = Vec::new();
    let mut i: usize = 0;
    while i < cs.len()
        invariant
            0 <= i <= cs.len(),
            r@ == join_chunks(views.take(i as int)),
        decreases cs.len() - i,
    {
        let ghost before = r@;
        if i > 0 {
            r.push('/');
        }
        push_all(&mut r, &cs[i]);
        proof {
            if i == 0 {
                assert(views.take(1) =~= seq![views[0]]);
                assert(join_chunks(views.take(1)) == views[0]);
                assert(r@ =~= views[0]);
            } else {
                lemma_join_snoc(views, i as int);
                assert(r@ =~= join_chunks(views.take(i as int)) + seq!['/'] + views[i as int]);
            }
        }
        i = i + 1;
    }
    proof {
        assert(views.take(cs@.len() as int) =~= views);
    }
    r
}

/// Copies a chunk.
pub(crate) fn copy_chars(src: &Vec<char>) -> (r: Vec<char>)
    ensures
        r@ == src@,
{
    let mut r: Vec<char> = Vec::new();
    push_all(&mut r, src);
    r
}

} // verus!
