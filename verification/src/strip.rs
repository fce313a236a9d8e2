//! Stripping a concrete prefix from a pattern: the minimal set of residual
//! patterns whose keys, joined onto the prefix, make up exactly the keys of
//! the pattern that lie under the prefix. The scan walks the candidate split
//! points of the pattern from right to left and keeps the accumulated result
//! minimal under inclusion.
use vstd::prelude::*;
use crate::algebra::{seq_includes, seq_intersects};
use crate::grammar::double_wild;

verus! {

/// A sequence with element `i` removed by moving the last element into its
/// place — the shape of `Vec::swap_remove`.
pub open spec fn swap_remove_seq(s: Seq<Seq<Seq<char>>>, i: int) -> Seq<Seq<Seq<char>>> {
    s.update(i, s.last()).drop_last()
}

/// Keeping the accumulated residuals minimal when `rem` arrives, walking the
/// indices downward exactly as the scan does: a residual that already
/// includes `rem` discards it; every residual that `rem` includes is
/// swap-removed; if nothing discarded `rem`, it is appended at the end.
pub open spec fn min_rec(acc: Seq<Seq<Seq<char>>>, rem: Seq<Seq<char>>, i: int) -> Seq<
    Seq<Seq<char>>,
>
    decreases i + 1,
{
    if i < 0 {
        acc.push(rem)
    } else if seq_includes(acc[i], rem) {
        acc
    } else if seq_includes(rem, acc[i]) {
        min_rec(swap_remove_seq(acc, i), rem, i - 1)
    } else {
        min_rec(acc, rem, i - 1)
    }
}

/// The right-to-left scan over split points `k` (in chunks): a split after
/// `k` chunks is a candidate when it falls before a separator, or at the very
/// end when the pattern ends in `**`. When the part before the split can
/// match the prefix, the part after it (keeping a trailing `**` of the front
/// part, whose reach is still open) is a residual: a residual of exactly
/// `**` covers everything and ends the scan by itself, any other residual is
/// merged into the accumulator minimally.
pub open spec fn strip_rec(
    cs: Seq<Seq<char>>,
    ps: Seq<Seq<char>>,
    k: int,
    acc: Seq<Seq<Seq<char>>>,
) -> Seq<Seq<Seq<char>>>
    decreases k,
{
    if k <= 0 {
        acc
    } else {
        let allowed = k < cs.len() || (k == cs.len() && cs[k - 1] == double_wild());
        if allowed && seq_intersects(cs.take(k), ps) {
            let rem = if cs[k - 1] == double_wild() {
                cs.skip(k - 1)
            } else {
                cs.skip(k)
            };
            if rem.len() == 0 {
                strip_rec(cs, ps, k - 1, acc)
            } else if rem == seq![double_wild()] {
                seq![rem]
            } else {
                strip_rec(cs, ps, k - 1, min_rec(acc, rem, acc.len() - 1))
            }
        } else {
            strip_rec(cs, ps, k - 1, acc)
        }
    }
}

/// The residuals of stripping `ps` from the front of `cs`, in scan order.
pub open spec fn spec_strip_prefix(cs: Seq<Seq<char>>, ps: Seq<Seq<char>>) -> Seq<Seq<Seq<char>>> {
    strip_rec(cs, ps, cs.len() as int, Seq::empty())
}

} // verus!
