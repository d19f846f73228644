//! Laws of the two distances.
//!
//! The Levenshtein distance is a metric on code-point sequences: it is zero
//! exactly on equal sequences, symmetric, and satisfies the triangle
//! inequality.  The fuzzy substring distance is bounded by the whole-string
//! distance, so a whole-string match is always one admissible substring
//! alignment.

use crate::distance::fuzzy_dist;
use crate::distance::lemma_sub_dist_le_lev_dist;
use crate::distance::lev_dist;
use vstd::prelude::*;

verus! {

/// The distance from a sequence to itself is zero.
pub proof fn lemma_lev_dist_self(s: Seq<char>)
    ensures
        lev_dist(s, s) == 0,
    decreases s.len(),
{
    if s.len() > 0 {
        lemma_lev_dist_self(s.drop_last());
    }
}

/// The distance is symmetric.
pub proof fn lemma_lev_dist_symmetric(s: Seq<char>, t: Seq<char>)
    ensures
        lev_dist(s, t) == lev_dist(t, s),
    decreases s.len() + t.len(),
{
    if s.len() > 0 && t.len() > 0 {
        lemma_lev_dist_symmetric(s.drop_last(), t.drop_last());
        lemma_lev_dist_symmetric(s.drop_last(), t);
        lemma_lev_dist_symmetric(s, t.drop_last());
    }
}

/// The distance to or from the empty sequence is the other sequence's
/// length.
pub proof fn lemma_lev_dist_empty(s: Seq<char>, t: Seq<char>)
    ensures
        lev_dist(Seq::<char>::empty(), t) == t.len(),
        lev_dist(s, Seq::<char>::empty()) == s.len(),
{
}

/// The distance never exceeds the two lengths together: deleting all of one
/// sequence and inserting all of the other is always an edit sequence.
pub proof fn lemma_lev_dist_le_sum(s: Seq<char>, t: Seq<char>)
    ensures
        lev_dist(s, t) <= s.len() + t.len(),
    decreases s.len() + t.len(),
{
    if s.len() > 0 && t.len() > 0 {
        lemma_lev_dist_le_sum(s.drop_last(), t.drop_last());
    }
}

/// The distance is at least the difference of the two lengths: every edit
/// changes a length by at most one.
pub proof fn lemma_lev_dist_ge_length_difference(s: Seq<char>, t: Seq<char>)
    ensures
        lev_dist(s, t) + s.len() >= t.len(),
        lev_dist(s, t) + t.len() >= s.len(),
    decreases s.len() + t.len(),
{
    if s.len() > 0 && t.len() > 0 {
        lemma_lev_dist_ge_length_difference(s.drop_last(), t.drop_last());
        lemma_lev_dist_ge_length_difference(s.drop_last(), t);
        lemma_lev_dist_ge_length_difference(s, t.drop_last());
    }
}

/// Dropping the last character of either sequence moves the distance by at
/// most one in either direction.
pub proof fn lemma_lev_dist_drop_last(s: Seq<char>, t: Seq<char>)
    ensures
        s.len() > 0 ==> lev_dist(s, t) <= lev_dist(s.drop_last(), t) + 1,
        s.len() > 0 ==> lev_dist(s.drop_last(), t) <= lev_dist(s, t) + 1,
        t.len() > 0 ==> lev_dist(s, t) <= lev_dist(s, t.drop_last()) + 1,
        t.len() > 0 ==> lev_dist(s, t.drop_last()) <= lev_dist(s, t) + 1,
    decreases s.len() + t.len(),
{
    if s.len() > 0 && t.len() > 0 {
        lemma_lev_dist_drop_last(s.drop_last(), t.drop_last());
        lemma_lev_dist_drop_last(s.drop_last(), t);
        lemma_lev_dist_drop_last(s, t.drop_last());
    }
}

/// The triangle inequality: going from `s` to `u` is never more costly than
/// going from `s` to `t` and then from `t` to `u`.
pub proof fn lemma_lev_dist_triangle(s: Seq<char>, t: Seq<char>, u: Seq<char>)
    ensures
        lev_dist(s, u) <= lev_dist(s, t) + lev_dist(t, u),
    decreases s.len() + t.len() + u.len(),
{
    if t.len() == 0 {
        lemma_lev_dist_le_sum(s, u);
    } else if s.len() == 0 {
        lemma_lev_dist_ge_length_difference(t, u);
    } else if u.len() == 0 {
        lemma_lev_dist_ge_length_difference(s, t);
    } else {
        lemma_lev_dist_drop_last(s, u);
        if s.last() == t.last() {
            if t.last() == u.last() {
                lemma_lev_dist_triangle(s.drop_last(), t.drop_last(), u.drop_last());
            } else {
                lemma_lev_dist_triangle(s.drop_last(), t.drop_last(), u.drop_last());
                lemma_lev_dist_triangle(s.drop_last(), t.drop_last(), u);
                lemma_lev_dist_triangle(s, t, u.drop_last());
            }
        } else {
            if t.last() == u.last() {
                lemma_lev_dist_triangle(s.drop_last(), t.drop_last(), u.drop_last());
                lemma_lev_dist_triangle(s.drop_last(), t, u);
                lemma_lev_dist_triangle(s, t.drop_last(), u.drop_last());
            } else {
                lemma_lev_dist_triangle(s.drop_last(), t.drop_last(), u.drop_last());
                lemma_lev_dist_triangle(s.drop_last(), t.drop_last(), u);
                lemma_lev_dist_triangle(s.drop_last(), t, u);
                lemma_lev_dist_triangle(s, t.drop_last(), u.drop_last());
                lemma_lev_dist_triangle(s, t.drop_last(), u);
                lemma_lev_dist_triangle(s, t, u.drop_last());
            }
        }
    }
}

/// Fuzzy containment is monotonic in the edit budget: a pattern found
/// within `k1` edits is found within any larger budget `k2`.
pub proof fn lemma_fuzzy_contains_monotonic(p: Seq<char>, t: Seq<char>, k1: nat, k2: nat)
    requires
        fuzzy_dist(p, t) <= k1,
        k1 <= k2,
    ensures
        fuzzy_dist(p, t) <= k2,
{
}

/// The fuzzy substring distance never exceeds the whole-string distance:
/// matching the pattern against all of the text is one admissible substring
/// alignment, so `fuzzy_contains(p, t, levenshtein(p, t))` always holds.
pub proof fn lemma_fuzzy_dist_le_lev_dist(p: Seq<char>, t: Seq<char>)
    ensures
        fuzzy_dist(p, t) <= lev_dist(p, t),
{
    lemma_sub_dist_le_lev_dist(p, t);
}

} // verus!
