//! The key-expression value type: text that is, by construction, a canonical
//! key expression, together with the operations of the set algebra.
use vstd::prelude::*;
use vstd::string::StrSliceExecFns;
use crate::algebra::{
    chunk_eq_exec, seq_includes, seq_includes_exec, seq_intersects, seq_intersects_exec,
};
use crate::canon::{canonize_chunks, spec_canon};
use crate::chunks::{
    chunk_views, chunks_of, join_chunks, join_exec, lemma_chunk_lens, lemma_chunks_count,
    lemma_chunks_no_slash, lemma_chunks_of_join, lemma_chunks_of_len, split_chunks,
};
use crate::grammar::{
    chunks_wf, double_wild, error_witnessed, is_canon, is_double_wild, validate_chunks,
    KeyExprError,
};
use crate::strip::{min_rec, spec_strip_prefix, strip_rec, swap_remove_seq};

verus! {

/// Text that is statically known to be a valid, canonical key expression.
///
/// A key expression names a set of concrete keys: `/`-separated non-empty
/// chunks, where the chunk `**` matches any number of whole chunks, the
/// chunk `*` matches exactly one, and a `$*` inside a chunk matches any
/// substring. Canonical form makes the text of a key expression unique for
/// the key set it denotes, so textual equality and set equality coincide.
#[allow(non_camel_case_types)]
#[derive(Debug, Hash)]
pub struct keyexpr {
    chars: Vec<char>,
}

impl View for keyexpr {
    type V = Seq<char>;

    closed spec fn view(&self) -> Seq<char> {
        self.chars@
    }
}

impl PartialEq for keyexpr {
    /// Two key expressions are equal exactly when their texts are; by
    /// canonical form, that is also equality of their key sets.
    fn eq(&self, other: &keyexpr) -> (r: bool) {
        chunk_eq_exec(&self.chars, &other.chars)
    }
}

impl vstd::std_specs::cmp::PartialEqSpecImpl for keyexpr {
    open spec fn obeys_eq_spec() -> bool {
        true
    }

    open spec fn eq_spec(&self, other: &keyexpr) -> bool {
        self@ == other@
    }
}

/// The possible relations between the key sets of two key expressions.
///
/// `Equals` implies `Includes`, which implies `Intersects`; `Disjoint` means
/// no key is shared at all.
#[derive(Debug, Clone, Copy, PartialEq, Eq, PartialOrd, Ord, Hash)]
pub enum SetIntersectionLevel {
    Disjoint,
    Intersects,
    Includes,
    Equals,
}

/// The relation of the key set of `a` to the key set of `b`: disjoint when
/// they share no key; equal exactly when the canonical texts are equal; else
/// including when `a` covers all of `b`; else merely intersecting.
pub open spec fn spec_relation(a: Seq<char>, b: Seq<char>) -> SetIntersectionLevel {
    if !seq_intersects(chunks_of(a), chunks_of(b)) {
        SetIntersectionLevel::Disjoint
    } else if a == b {
        SetIntersectionLevel::Equals
    } else if seq_includes(chunks_of(a), chunks_of(b)) {
        SetIntersectionLevel::Includes
    } else {
        SetIntersectionLevel::Intersects
    }
}

/// Relies on String's FromIterator<char> implementation: collecting an
/// iterator of characters yields the string of exactly those characters.
#[verifier::external_body]
fn chars_to_string(v: &Vec<char>) -> (r: String)
    ensures
        r@ == v@,
{
    v.iter().collect()
}

/// Collects the characters of a text.
fn str_to_chars(s: &str) -> (r: Vec<char>)
    ensures
        r@ == s@,
{
    let n = s.unicode_len();
    let mut r: Vec<char> = Vec::new();
    let mut i: usize = 0;
    while i < n
        invariant
            0 <= i <= n,
            n == s@.len(),
            r@ == s@.take(i as int),
        decreases n - i,
    {
        let c = s.get_char(i);
        r.push(c);
        proof {
            assert(s@.take(i + 1) =~= s@.take(i as int).push(s@[i as int]));
        }
        i = i + 1;
    }
    proof {
        assert(s@.take(n as int) =~= s@);
    }
    r
}

/// Canonicalizes a character buffer and validates the result.
fn canonize_vec(v: &Vec<char>) -> (r: Result<keyexpr, KeyExprError>)
    ensures
        r is Ok <==> is_canon(spec_canon(v@)),
        r matches Ok(k) ==> k.wf() && k@ == spec_canon(v@),
        r matches Err(e) ==> error_witnessed(e, chunks_of(spec_canon(v@))),
{
    let cs = split_chunks(v);
    let ccs = canonize_chunks(&cs);
    proof {
        lemma_chunks_no_slash(v@);
        lemma_chunks_of_len(v@);
        crate::canon::lemma_canon_no_slash(chunks_of(v@));
        lemma_chunks_of_join(chunk_views(ccs@));
    }
    match validate_chunks(&ccs) {
        Ok(()) => {
            let joined = join_exec(&ccs);
            Ok(keyexpr { chars: joined })
        },
        Err(e) => Err(e),
    }
}

impl keyexpr {
    /// Canonical form, guaranteed for every constructed value.
    pub open spec fn wf(&self) -> bool {
        is_canon(self@)
    }

    /// Returns `s` as a key expression if it is already canonical, and the
    /// reason it is not otherwise. No rewriting is applied: a string must be
    /// canonical to be a valid key expression.
    pub fn new(s: &str) -> (r: Result<keyexpr, KeyExprError>)
        ensures
            r is Ok <==> is_canon(s@),
            r matches Ok(k) ==> k.wf() && k@ == s@,
            r matches Err(e) ==> error_witnessed(e, chunks_of(s@)),
    {
        let chars = str_to_chars(s);
        let cs = split_chunks(&chars);
        match validate_chunks(&cs) {
            Ok(()) => Ok(keyexpr { chars }),
            Err(e) => Err(e),
        }
    }

    /// Canonicalizes `s`, then returns it as a key expression; fails with
    /// the validator's reason when the text is invalid beyond rewriting.
    pub fn autocanonize(s: &str) -> (r: Result<keyexpr, KeyExprError>)
        ensures
            r is Ok <==> is_canon(spec_canon(s@)),
            r matches Ok(k) ==> k.wf() && k@ == spec_canon(s@),
            r matches Err(e) ==> error_witnessed(e, chunks_of(spec_canon(s@))),
    {
        let chars = str_to_chars(s);
        canonize_vec(&chars)
    }

    /// Whether the key sets of `self` and `other` share at least one key.
    pub fn intersects(&self, other: &keyexpr) -> (r: bool)
        requires
            self.wf(),
            other.wf(),
            self@.len() < usize::MAX - 1,
            other@.len() < usize::MAX - 1,
        ensures
            r == seq_intersects(chunks_of(self@), chunks_of(other@)),
    {
        proof {
            lemma_chunks_count(self@);
            lemma_chunks_count(other@);
            lemma_chunk_lens(self@);
            lemma_chunk_lens(other@);
        }
        let acs = split_chunks(&self.chars);
        let bcs = split_chunks(&other.chars);
        proof {
            assert(forall|k: int|
                0 <= k < acs@.len() ==> #[trigger] acs@[k]@.len() == chunks_of(self@)[k].len());
            assert(forall|k: int|
                0 <= k < bcs@.len() ==> #[trigger] bcs@[k]@.len() == chunks_of(other@)[k].len());
        }
        seq_intersects_exec(&acs, &bcs)
    }

    /// Whether every key of `other`'s key set belongs to `self`'s key set.
    pub fn includes(&self, other: &keyexpr) -> (r: bool)
        requires
            self.wf(),
            other.wf(),
            self@.len() < usize::MAX - 1,
            other@.len() < usize::MAX - 1,
        ensures
            r == seq_includes(chunks_of(self@), chunks_of(other@)),
    {
        proof {
            lemma_chunks_count(self@);
            lemma_chunks_count(other@);
            lemma_chunk_lens(self@);
            lemma_chunk_lens(other@);
        }
        let acs = split_chunks(&self.chars);
        let bcs = split_chunks(&other.chars);
        proof {
            assert(forall|k: int|
                0 <= k < acs@.len() ==> #[trigger] acs@[k]@.len() == chunks_of(self@)[k].len());
            assert(forall|k: int|
                0 <= k < bcs@.len() ==> #[trigger] bcs@[k]@.len() == chunks_of(other@)[k].len());
        }
        seq_includes_exec(&acs, &bcs)
    }

    /// The relation of `self`'s key set to `other`'s, from `self`'s point of
    /// view. The equality test is textual, which is sound exactly because
    /// values are canonical.
    pub fn relation_to(&self, other: &keyexpr) -> (r: SetIntersectionLevel)
        requires
            self.wf(),
            other.wf(),
            self@.len() < usize::MAX - 1,
            other@.len() < usize::MAX - 1,
        ensures
            r == spec_relation(self@, other@),
    {
        if self.intersects(other) {
            if chunk_eq_exec(&self.chars, &other.chars) {
                SetIntersectionLevel::Equals
            } else if self.includes(other) {
                SetIntersectionLevel::Includes
            } else {
                SetIntersectionLevel::Intersects
            }
        } else {
            SetIntersectionLevel::Disjoint
        }
    }

    /// Joins both sides with a `/` in between and canonicalizes the result.
    pub fn join(&self, other: &str) -> (r: Result<keyexpr, KeyExprError>)
        ensures
            r is Ok <==> is_canon(spec_canon(self@ + seq!['/'] + other@)),
            r matches Ok(k) ==> k.wf() && k@ == spec_canon(self@ + seq!['/'] + other@),
            r matches Err(e) ==> error_witnessed(
                e,
                chunks_of(spec_canon(self@ + seq!['/'] + other@)),
            ),
    {
        let mut buf = crate::chunks::copy_chars(&self.chars);
        buf.push('/');
        let tail = str_to_chars(other);
        crate::chunks::push_all(&mut buf, &tail);
        proof {
            assert(buf@ =~= self@ + seq!['/'] + other@);
        }
        canonize_vec(&buf)
    }

    /// Whether `self` holds any wildcard character.
    pub fn is_wild(&self) -> (r: bool)
        ensures
            r == self@.contains('*'),
    {
        let mut i: usize = 0;
        while i < self.chars.len()
            invariant
                0 <= i <= self@.len(),
                forall|k: int| 0 <= k < i ==> self@[k] != '*',
            decreases self@.len() - i,
        {
            if self.chars[i] == '*' {
                return true;
            }
            i = i + 1;
        }
        false
    }

    /// Makes a key expression of `s` without validating it. The caller must
    /// establish that `s` is canonical; nothing is checked at run time.
    pub fn from_str_unchecked(s: &str) -> (r: keyexpr)
        requires
            is_canon(s@),
        ensures
            r.wf(),
            r@ == s@,
    {
        let chars = str_to_chars(s);
        keyexpr { chars }
    }

    /// The text of the key expression.
    pub fn as_str(&self) -> (r: String)
        ensures
            r@ == self@,
    {
        chars_to_string(&self.chars)
    }

    /// The longest leading run of chunks free of wildcard characters, as a
    /// key expression of its own: the whole value when nothing is wild, and
    /// nothing when the very first chunk already is.
    pub fn get_nonwild_prefix(&self) -> (r: Option<keyexpr>)
        requires
            self.wf(),
        ensures
            ({
                let cs = chunks_of(self@);
                let k = starless_count(cs);
                &&& (r is None <==> k == 0)
                &&& (r matches Some(p) ==> p.wf() && p@ == join_chunks(cs.take(k)))
                &&& (k == cs.len() ==> (r matches Some(p) && p@ == self@))
            }),
    {
        let cs = split_chunks(&self.chars);
        let ghost views = chunk_views(cs@);
        let mut k: usize = 0;
        while k < cs.len() && !has_star_exec(&cs[k])
            invariant
                0 <= k <= views.len(),
                views == chunk_views(cs@),
                forall|j: int| 0 <= j < k ==> !(#[trigger] views[j]).contains('*'),
            decreases cs@.len() - k,
        {
            k = k + 1;
        }
        proof {
            if k < cs@.len() {
                assert(views[k as int].contains('*'));
            }
            lemma_starless_count(views, k as int);
        }
        if k == 0 {
            return None;
        }
        let mut pre: Vec<Vec<char>> = Vec::new();
        let mut j: usize = 0;
        while j < k
            invariant
                0 <= j <= k <= cs@.len(),
                views == chunk_views(cs@),
                pre@.len() == j,
                forall|i: int| 0 <= i < j ==> #[trigger] pre@[i]@ == views[i],
            decreases k - j,
        {
            let c = crate::chunks::copy_chars(&cs[j]);
            pre.push(c);
            j = j + 1;
        }
        proof {
            assert(chunk_views(pre@) =~= views.take(k as int));
            crate::grammar::lemma_wf_take(views, k as int);
            if k == cs@.len() {
                assert(views.take(k as int) =~= views);
                crate::chunks::lemma_join_chunks_of(self@);
            }
        }
        Some(from_chunks(&pre))
    }

    /// Removes `prefix` from the front of `self`, returning every residual
    /// pattern that remains under some way the prefix can match, minimized so
    /// that no returned pattern includes another. An empty result means the
    /// prefix cannot match the beginning of `self` at all (or consumed it
    /// whole).
    pub fn strip_prefix(&self, prefix: &keyexpr) -> (r: Vec<keyexpr>)
        requires
            self.wf(),
            prefix.wf(),
            self@.len() < usize::MAX - 1,
            prefix@.len() < usize::MAX - 1,
        ensures
            ({
                let out = spec_strip_prefix(chunks_of(self@), chunks_of(prefix@));
                &&& r@.len() == out.len()
                &&& (forall|i: int|
                    0 <= i < out.len() ==> (#[trigger] r@[i])@ == join_chunks(out[i]) && r@[i].wf())
            }),
    {
        proof {
            lemma_chunks_count(self@);
            lemma_chunk_lens(self@);
            lemma_chunks_count(prefix@);
            lemma_chunk_lens(prefix@);
        }
        let cs = split_chunks(&self.chars);
        let ps = split_chunks(&prefix.chars);
        let ghost views = chunk_views(cs@);
        let ghost pviews = chunk_views(ps@);
        proof {
            assert(forall|i: int|
                0 <= i < cs@.len() ==> #[trigger] cs@[i]@.len() == chunks_of(self@)[i].len());
            assert(forall|i: int|
                0 <= i < ps@.len() ==> #[trigger] ps@[i]@.len() == chunks_of(prefix@)[i].len());
        }
        let n = cs.len();
        let mut sub: Vec<Vec<char>> = Vec::new();
        let mut j0: usize = 0;
        while j0 < n
            invariant
                0 <= j0 <= n,
                n == cs@.len(),
                views == chunk_views(cs@),
                sub@.len() == j0,
                forall|i: int| 0 <= i < j0 ==> #[trigger] sub@[i]@ == views[i],
            decreases n - j0,
        {
            let c = crate::chunks::copy_chars(&cs[j0]);
            sub.push(c);
            j0 = j0 + 1;
        }
        let mut acc: Vec<Vec<Vec<char>>> = Vec::new();
        let mut k: usize = n;
        proof {
            assert(residual_views(acc@) =~= Seq::<Seq<Seq<char>>>::empty());
            assert(views.len() == n);
        }
        while k > 0
            invariant
                0 <= k <= n,
                n == cs@.len(),
                n < usize::MAX,
                views == chunk_views(cs@),
                pviews == chunk_views(ps@),
                views == chunks_of(self@),
                pviews == chunks_of(prefix@),
                chunks_wf(views),
                ps@.len() < usize::MAX,
                forall|i: int| 0 <= i < cs@.len() ==> #[trigger] cs@[i]@.len() < usize::MAX,
                forall|i: int| 0 <= i < ps@.len() ==> #[trigger] ps@[i]@.len() < usize::MAX,
                sub@.len() == k,
                forall|i: int| 0 <= i < k ==> #[trigger] sub@[i]@ == views[i],
                spec_strip_prefix(views, pviews) == strip_rec(
                    views,
                    pviews,
                    k as int,
                    residual_views(acc@),
                ),
                acc@.len() <= n - k,
                forall|i: int| 0 <= i < acc@.len() ==> #[trigger] acc@[i]@.len() < usize::MAX,
                forall|i: int, j: int|
                    0 <= i < acc@.len() && 0 <= j < acc@[i]@.len() ==> (#[trigger] acc@[i]@[j])@.len()
                        < usize::MAX,
                forall|i: int|
                    0 <= i < acc@.len() ==> chunks_wf(chunk_views(#[trigger] acc@[i]@)),
            decreases k,
        {
            let ghost rv = residual_views(acc@);
            proof {
                assert(chunk_views(sub@) =~= views.take(k as int));
                assert(views[k - 1] == cs@[k - 1]@);
            }
            let allowed = if k == n {
                is_double_wild(&cs[n - 1])
            } else {
                true
            };
            let inter = if allowed {
                seq_intersects_exec(&sub, &ps)
            } else {
                false
            };
            if inter {
                let head_wild = is_double_wild(&cs[k - 1]);
                let start = if head_wild {
                    k - 1
                } else {
                    k
                };
                let mut rem: Vec<Vec<char>> = Vec::new();
                let mut j: usize = start;
                while j < n
                    invariant
                        start <= j <= n,
                        n == cs@.len(),
                        views == chunk_views(cs@),
                        forall|i: int|
                            0 <= i < cs@.len() ==> #[trigger] cs@[i]@.len() < usize::MAX,
                        rem@.len() == j - start,
                        forall|i: int| 0 <= i < j - start ==> #[trigger] rem@[i]@ == views[start + i],
                    decreases n - j,
                {
                    let c = crate::chunks::copy_chars(&cs[j]);
                    rem.push(c);
                    j = j + 1;
                }
                let ghost remv = chunk_views(rem@);
                proof {
                    assert(remv =~= views.skip(start as int));
                    assert(rem@.len() < usize::MAX);
                    assert(forall|i: int|
                        0 <= i < rem@.len() ==> (#[trigger] rem@[i])@.len() < usize::MAX);
                    if start < n {
                        crate::grammar::lemma_wf_skip(views, start as int);
                    }
                }
                if rem.len() == 0 {
                    proof {
                        assert(strip_rec(views, pviews, k as int, rv) == strip_rec(
                            views,
                            pviews,
                            k as int - 1,
                            rv,
                        ));
                    }
                } else if rem.len() == 1 && is_double_wild(&rem[0]) {
                    proof {
                        assert(remv[0] == rem@[0]@);
                        assert(remv =~= seq![double_wild()]);
                        crate::grammar::lemma_double_wild_wf();
                        assert(strip_rec(views, pviews, k as int, rv) == seq![remv]);
                        assert(spec_strip_prefix(views, pviews) == seq![remv]);
                    }
                    let only = from_chunks(&rem);
                    let mut out: Vec<keyexpr> = Vec::new();
                    out.push(only);
                    proof {
                        assert(out@[0]@ == join_chunks(remv));
                    }
                    return out;
                } else {
                    proof {
                        if remv.len() == 1 {
                            assert(remv[0] == rem@[0]@);
                        }
                        assert(remv != seq![double_wild()]);
                        assert(strip_rec(views, pviews, k as int, rv) == strip_rec(
                            views,
                            pviews,
                            k as int - 1,
                            min_rec(rv, remv, rv.len() - 1),
                        ));
                    }
                    let ghost acc0 = residual_views(acc@);
                    let ghost i0 = acc0.len() - 1;
                    let mut idx: usize = acc.len();
                    let mut dropped = false;
                    while idx > 0 && !dropped
                        invariant
                            0 <= idx <= acc@.len(),
                            acc@.len() <= n - k,
                            n < usize::MAX,
                            n == cs@.len(),
                            rem@.len() < usize::MAX,
                            forall|i: int|
                                0 <= i < rem@.len() ==> (#[trigger] rem@[i])@.len() < usize::MAX,
                            remv == chunk_views(rem@),
                            chunks_wf(remv),
                            forall|i: int|
                                0 <= i < acc@.len() ==> #[trigger] acc@[i]@.len() < usize::MAX,
                            forall|i: int, j: int|
                                0 <= i < acc@.len() && 0 <= j < acc@[i]@.len() ==> (
                                #[trigger] acc@[i]@[j])@.len() < usize::MAX,
                            forall|i: int|
                                0 <= i < acc@.len() ==> chunks_wf(chunk_views(#[trigger] acc@[i]@)),
                            !dropped ==> min_rec(acc0, remv, i0) == min_rec(
                                residual_views(acc@),
                                remv,
                                idx - 1,
                            ),
                            dropped ==> min_rec(acc0, remv, i0) == residual_views(acc@),
                        decreases idx, (if dropped { 0int } else { 1int }),
                    {
                        let i = idx - 1;
                        proof {
                            assert(residual_views(acc@)[i as int] == chunk_views(acc@[i as int]@));
                        }
                        if seq_includes_exec(&acc[i], &rem) {
                            dropped = true;
                        } else if seq_includes_exec(&rem, &acc[i]) {
                            let ghost before = residual_views(acc@);
                            let _ = acc.swap_remove(i);
                            proof {
                                assert(residual_views(acc@) =~= swap_remove_seq(before, i as int));
                            }
                            idx = idx - 1;
                        } else {
                            idx = idx - 1;
                        }
                    }
                    if !dropped {
                        let ghost before = residual_views(acc@);
                        acc.push(rem);
                        proof {
                            assert(residual_views(acc@) =~= before.push(remv));
                        }
                    }
                    proof {
                        assert(min_rec(acc0, remv, i0) == residual_views(acc@));
                    }
                }
            } else {
                proof {
                    assert(strip_rec(views, pviews, k as int, rv) == strip_rec(
                        views,
                        pviews,
                        k as int - 1,
                        rv,
                    ));
                }
            }
            let _ = sub.pop();
            k = k - 1;
        }
        let ghost out_spec = spec_strip_prefix(views, pviews);
        proof {
            assert(strip_rec(views, pviews, 0int, residual_views(acc@)) == residual_views(acc@));
        }
        let mut out: Vec<keyexpr> = Vec::new();
        let mut t: usize = 0;
        while t < acc.len()
            invariant
                0 <= t <= acc@.len(),
                out_spec == residual_views(acc@),
                forall|i: int|
                    0 <= i < acc@.len() ==> chunks_wf(chunk_views(#[trigger] acc@[i]@)),
                out@.len() == t,
                forall|i: int|
                    0 <= i < t ==> (#[trigger] out@[i])@ == join_chunks(chunk_views(acc@[i]@))
                        && out@[i].wf(),
            decreases acc@.len() - t,
        {
            let ke = from_chunks(&acc[t]);
            out.push(ke);
            t = t + 1;
        }
        proof {
            assert(forall|i: int|
                0 <= i < out_spec.len() ==> out_spec[i] == chunk_views(#[trigger] acc@[i]@));
        }
        out
    }
}

/// The number of leading chunks free of any `*` character.
pub open spec fn starless_count(cs: Seq<Seq<char>>) -> int
    decreases cs.len(),
{
    if cs.len() == 0 {
        0
    } else if cs[0].contains('*') {
        0
    } else {
        1 + starless_count(cs.skip(1))
    }
}

proof fn lemma_starless_count(cs: Seq<Seq<char>>, k: int)
    requires
        0 <= k <= cs.len(),
        forall|j: int| 0 <= j < k ==> !(#[trigger] cs[j]).contains('*'),
        k == cs.len() || cs[k].contains('*'),
    ensures
        starless_count(cs) == k,
    decreases k,
{
    if k == 0 {
    } else {
        assert(!cs[0].contains('*'));
        assert(forall|j: int| 0 <= j < k - 1 ==> !(#[trigger] cs.skip(1)[j]).contains('*'));
        if k < cs.len() {
            assert(cs.skip(1)[k - 1].contains('*'));
        }
        lemma_starless_count(cs.skip(1), k - 1);
    }
}

/// The views of a vector of residual chunk lists.
pub open spec fn residual_views(v: Seq<Vec<Vec<char>>>) -> Seq<Seq<Seq<char>>> {
    Seq::new(v.len(), |i: int| chunk_views(v[i]@))
}

/// Whether the chunk holds a `*` character.
fn has_star_exec(c: &Vec<char>) -> (r: bool)
    ensures
        r == c@.contains('*'),
{
    let mut i: usize = 0;
    while i < c.len()
        invariant
            0 <= i <= c@.len(),
            forall|k: int| 0 <= k < i ==> c@[k] != '*',
        decreases c@.len() - i,
    {
        if c[i] == '*' {
            return true;
        }
        i = i + 1;
    }
    false
}

/// Builds a key expression from chunks already known to be canonical.
fn from_chunks(cs: &Vec<Vec<char>>) -> (r: keyexpr)
    requires
        chunks_wf(chunk_views(cs@)),
    ensures
        r.wf(),
        r@ == join_chunks(chunk_views(cs@)),
{
    proof {
        let views = chunk_views(cs@);
        assert forall|i: int, j: int|
            0 <= i < views.len() && 0 <= j < views[i].len() implies views[i][j] != '/' by {
            assert(crate::grammar::chunk_ok(views[i]));
        }
        lemma_chunks_of_join(views);
    }
    let joined = join_exec(cs);
    keyexpr { chars: joined }
}

} // verus!
