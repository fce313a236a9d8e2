//! The laws of the set algebra: intersection is symmetric and reflexive,
//! inclusion implies intersection, and — over canonical values — textual
//! equality coincides with set equality.
use vstd::prelude::*;
use crate::algebra::{seq_includes, seq_intersects};
use crate::chunks::chunks_of;
use crate::glob::{
    chunk_includes, chunk_intersects, glob_matches, prefix_compat, suffix_compat,
};
use crate::grammar::is_canon;
use crate::key_expr::{spec_relation, SetIntersectionLevel};

verus! {

proof fn lemma_prefix_compat_sym(x: Seq<char>, y: Seq<char>)
    ensures
        prefix_compat(x, y) == prefix_compat(y, x),
    decreases x.len() + y.len(),
{
    if x.len() == 0 || y.len() == 0 {
    } else if x[0] == '$' || y[0] == '$' {
    } else {
        lemma_prefix_compat_sym(x.skip(1), y.skip(1));
    }
}

proof fn lemma_suffix_compat_sym(x: Seq<char>, y: Seq<char>)
    ensures
        suffix_compat(x, y) == suffix_compat(y, x),
    decreases x.len() + y.len(),
{
    if x.len() == 0 || y.len() == 0 {
    } else if crate::glob::ends_dollar_star(x) || crate::glob::ends_dollar_star(y) {
    } else {
        lemma_suffix_compat_sym(x.drop_last(), y.drop_last());
    }
}

proof fn lemma_chunk_intersects_sym(x: Seq<char>, y: Seq<char>)
    ensures
        chunk_intersects(x, y) == chunk_intersects(y, x),
{
    lemma_prefix_compat_sym(x, y);
    lemma_suffix_compat_sym(x, y);
}

proof fn lemma_prefix_compat_refl(x: Seq<char>)
    ensures
        prefix_compat(x, x),
    decreases x.len(),
{
    if x.len() == 0 {
    } else if x[0] == '$' {
    } else {
        lemma_prefix_compat_refl(x.skip(1));
    }
}

proof fn lemma_suffix_compat_refl(x: Seq<char>)
    ensures
        suffix_compat(x, x),
    decreases x.len(),
{
    if x.len() == 0 {
    } else if crate::glob::ends_dollar_star(x) {
    } else {
        lemma_suffix_compat_refl(x.drop_last());
    }
}

/// A substring pattern matches its own text: each `$*` absorbs itself.
proof fn lemma_glob_self(p: Seq<char>)
    ensures
        glob_matches(p, p),
    decreases p.len(),
{
    if p.len() == 0 {
    } else if p.len() >= 2 && p[0] == '$' && p[1] == '*' {
        lemma_glob_self(p.skip(2));
        // p matches p.skip(2): the leading $* absorbs nothing
        assert(glob_matches(p.skip(2), p.skip(2)));
        assert(glob_matches(p, p.skip(2)));
        // p matches p.skip(1): the leading $* absorbs the remaining '*'
        assert(p.skip(1).len() > 0);
        assert(p.skip(1).skip(1) =~= p.skip(2));
        assert(glob_matches(p, p.skip(1)));
        // p matches p: the leading $* absorbs the '$'
        assert(p.skip(0) =~= p);
        assert(glob_matches(p, p));
    } else {
        lemma_glob_self(p.skip(1));
        assert(glob_matches(p, p));
    }
}

proof fn lemma_chunk_intersects_refl(x: Seq<char>)
    ensures
        chunk_intersects(x, x),
{
    lemma_prefix_compat_refl(x);
    lemma_suffix_compat_refl(x);
    if !crate::glob::has_dollar(x) {
        assert(chunk_intersects(x, x));
    }
}

proof fn lemma_chunk_includes_refl(x: Seq<char>)
    ensures
        chunk_includes(x, x),
{
    if crate::glob::has_dollar(x) {
        lemma_glob_self(x);
    }
}

/// One chunk containing another's whole key set shares a chunk with it.
proof fn lemma_chunk_includes_implies_intersects(x: Seq<char>, y: Seq<char>)
    requires
        chunk_includes(x, y),
    ensures
        chunk_intersects(x, y),
{
}

proof fn lemma_seq_intersects_sym(a: Seq<Seq<char>>, b: Seq<Seq<char>>)
    ensures
        seq_intersects(a, b) == seq_intersects(b, a),
    decreases a.len() + b.len(),
{
    if a.len() == 0 && b.len() == 0 {
    } else if a.len() == 0 {
        lemma_seq_intersects_sym(a, b.skip(1));
    } else if b.len() == 0 {
        lemma_seq_intersects_sym(a.skip(1), b);
    } else if a[0] == crate::grammar::double_wild() || b[0] == crate::grammar::double_wild() {
        lemma_seq_intersects_sym(a.skip(1), b);
        lemma_seq_intersects_sym(a, b.skip(1));
    } else {
        lemma_chunk_intersects_sym(a[0], b[0]);
        lemma_seq_intersects_sym(a.skip(1), b.skip(1));
    }
}

proof fn lemma_seq_intersects_refl(a: Seq<Seq<char>>)
    ensures
        seq_intersects(a, a),
    decreases a.len(),
{
    if a.len() == 0 {
    } else if a[0] == crate::grammar::double_wild() {
        lemma_seq_intersects_refl(a.skip(1));
        if a.skip(1).len() == 0 {
            assert(seq_intersects(a.skip(1), a.skip(1)));
            assert(seq_intersects(a, a.skip(1)));
        } else {
            assert(seq_intersects(a, a.skip(1)));
        }
        assert(seq_intersects(a, a));
    } else {
        lemma_chunk_intersects_refl(a[0]);
        lemma_seq_intersects_refl(a.skip(1));
    }
}

proof fn lemma_seq_includes_refl(a: Seq<Seq<char>>)
    ensures
        seq_includes(a, a),
    decreases a.len(),
{
    if a.len() == 0 {
    } else if a[0] == crate::grammar::double_wild() {
        lemma_seq_includes_refl(a.skip(1));
        if a.skip(1).len() == 0 {
            assert(seq_includes(a, a.skip(1)));
        } else {
            assert(seq_includes(a, a.skip(1)));
        }
        assert(seq_includes(a, a));
    } else {
        lemma_chunk_includes_refl(a[0]);
        lemma_seq_includes_refl(a.skip(1));
    }
}

proof fn lemma_seq_includes_implies_intersects(a: Seq<Seq<char>>, b: Seq<Seq<char>>)
    requires
        seq_includes(a, b),
    ensures
        seq_intersects(a, b),
    decreases a.len() + b.len(),
{
    if a.len() == 0 {
        // b is empty too
    } else if a[0] == crate::grammar::double_wild() {
        if seq_includes(a.skip(1), b) {
            lemma_seq_includes_implies_intersects(a.skip(1), b);
        } else {
            lemma_seq_includes_implies_intersects(a, b.skip(1));
        }
        assert(seq_intersects(a, b));
    } else {
        lemma_chunk_includes_implies_intersects(a[0], b[0]);
        lemma_seq_includes_implies_intersects(a.skip(1), b.skip(1));
    }
}

/// Intersection is symmetric: `a` shares a key with `b` exactly when `b`
/// shares one with `a`.
pub proof fn lemma_intersects_symmetric(a: Seq<char>, b: Seq<char>)
    ensures
        seq_intersects(chunks_of(a), chunks_of(b)) == seq_intersects(chunks_of(b), chunks_of(a)),
{
    lemma_seq_intersects_sym(chunks_of(a), chunks_of(b));
}

/// Over canonical values, textual equality coincides with set equality: two
/// key expressions are the same text exactly when their relation is `Equals`.
pub proof fn lemma_string_eq_iff_equals(a: Seq<char>, b: Seq<char>)
    requires
        is_canon(a),
        is_canon(b),
    ensures
        (a == b) <==> spec_relation(a, b) == SetIntersectionLevel::Equals,
{
    if a == b {
        lemma_seq_intersects_refl(chunks_of(a));
    }
}

/// The relation lattice is consistent: `Equals` entails inclusion, inclusion
/// entails intersection, and every key expression equals itself.
pub proof fn lemma_relation_lattice(a: Seq<char>, b: Seq<char>)
    requires
        is_canon(a),
        is_canon(b),
    ensures
        spec_relation(a, b) == SetIntersectionLevel::Equals ==> seq_includes(
            chunks_of(a),
            chunks_of(b),
        ),
        seq_includes(chunks_of(a), chunks_of(b)) ==> seq_intersects(chunks_of(a), chunks_of(b)),
        spec_relation(a, a) == SetIntersectionLevel::Equals,
{
    if spec_relation(a, b) == SetIntersectionLevel::Equals {
        assert(a == b);
        lemma_seq_includes_refl(chunks_of(a));
    }
    if seq_includes(chunks_of(a), chunks_of(b)) {
        lemma_seq_includes_implies_intersects(chunks_of(a), chunks_of(b));
    }
    lemma_seq_intersects_refl(chunks_of(a));
}

} // verus!
