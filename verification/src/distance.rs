//! The distance engine: Levenshtein distance and fuzzy substring distance.
//!
//! Both operations are stated by the same recurrence over prefix lengths
//! `(i, j)`; they differ only in the base case for an empty pattern prefix.
//! For whole-string distance, consuming `j` characters of the target with no
//! pattern left costs `j` insertions; for substring search those characters
//! are unmatched text before the match starts, hence free.
//!
//! The engine computes each cell of one memo table at most once, in either
//! of two orders: `lev_rec` and `lev_sub_rec` evaluate the recurrences
//! literally, top-down from the full lengths, while the two table fills
//! sweep bottom-up, row by row, so that the top-level operations need no
//! recursion and long inputs cannot exhaust the call stack.

use crate::table::MemoMatrix;
use vstd::prelude::*;

verus! {

/// The smaller of two distances.
pub open spec fn min2(a: nat, b: nat) -> nat {
    if a <= b {
        a
    } else {
        b
    }
}

/// The smallest of three distances.
pub open spec fn min3(a: nat, b: nat, c: nat) -> nat {
    min2(a, min2(b, c))
}

/// The Levenshtein distance between the code-point sequences `s` and `t`:
/// the minimum number of single-character insertions, deletions and
/// substitutions that turn `s` into `t`, by the standard recurrence over
/// the two final characters.
pub open spec fn lev_dist(s: Seq<char>, t: Seq<char>) -> nat
    decreases s.len() + t.len(),
{
    if s.len() == 0 {
        t.len()
    } else if t.len() == 0 {
        s.len()
    } else if s.last() == t.last() {
        lev_dist(s.drop_last(), t.drop_last())
    } else {
        1 + min3(
            lev_dist(s.drop_last(), t.drop_last()),
            lev_dist(s.drop_last(), t),
            lev_dist(s, t.drop_last()),
        )
    }
}

/// The substring-anchored distance between a pattern `p` and a text prefix
/// `t`: the minimum number of edits that turn `p` into some suffix of `t`.
/// It is the Levenshtein recurrence with one changed base case: an empty
/// pattern matches for free at any point of the text, so skipping a text
/// prefix before the match begins costs nothing.
pub open spec fn sub_dist(p: Seq<char>, t: Seq<char>) -> nat
    decreases p.len() + t.len(),
{
    if p.len() == 0 {
        0
    } else if t.len() == 0 {
        p.len()
    } else if p.last() == t.last() {
        sub_dist(p.drop_last(), t.drop_last())
    } else {
        1 + min3(
            sub_dist(p.drop_last(), t.drop_last()),
            sub_dist(p.drop_last(), t),
            sub_dist(p, t.drop_last()),
        )
    }
}

/// The fuzzy substring distance between `p` and `t`: the minimum, over every
/// end point `j` within `t`, of the substring-anchored distance between `p`
/// and `t`'s first `j` characters.  This is the least edit distance between
/// `p` and any contiguous substring of `t`.
pub open spec fn fuzzy_dist(p: Seq<char>, t: Seq<char>) -> nat
    decreases t.len(),
{
    if t.len() == 0 {
        sub_dist(p, t)
    } else {
        min2(sub_dist(p, t), fuzzy_dist(p, t.drop_last()))
    }
}

/// A memo cell is either still empty or holds exactly the value `v`.
pub open spec fn cell_ok(c: Option<usize>, v: nat) -> bool {
    match c {
        Some(d) => d == v,
        None => true,
    }
}

/// The memo table is shaped for `s` and `t` and every filled cell `(i, j)`
/// holds the Levenshtein distance of the length-`i` and length-`j` prefixes.
pub open spec fn lev_table_wf(rect: MemoMatrix, s: Seq<char>, t: Seq<char>) -> bool {
    &&& rect.wf()
    &&& rect.rows == s.len() + 1
    &&& rect.cols == t.len() + 1
    &&& forall|i: int, j: int|
        0 <= i <= s.len() && 0 <= j <= t.len()
            ==> cell_ok(#[trigger] rect.cell(i, j), lev_dist(s.take(i), t.take(j)))
}

/// The memo table is shaped for `p` and `t` and every filled cell `(i, j)`
/// holds the substring-anchored distance of the length-`i` and length-`j`
/// prefixes.
pub open spec fn sub_table_wf(rect: MemoMatrix, p: Seq<char>, t: Seq<char>) -> bool {
    &&& rect.wf()
    &&& rect.rows == p.len() + 1
    &&& rect.cols == t.len() + 1
    &&& forall|i: int, j: int|
        0 <= i <= p.len() && 0 <= j <= t.len()
            ==> cell_ok(#[trigger] rect.cell(i, j), sub_dist(p.take(i), t.take(j)))
}

/// The distance never exceeds the longer of the two lengths.
pub proof fn lemma_lev_dist_le_longer(s: Seq<char>, t: Seq<char>)
    ensures
        lev_dist(s, t) <= s.len() || lev_dist(s, t) <= t.len(),
    decreases s.len() + t.len(),
{
    if s.len() == 0 || t.len() == 0 {
    } else {
        lemma_lev_dist_le_longer(s.drop_last(), t.drop_last());
    }
}

/// The substring-anchored distance never exceeds the whole-string distance:
/// matching all of `t` is one of the alignments the substring variant may
/// choose.
pub proof fn lemma_sub_dist_le_lev_dist(p: Seq<char>, t: Seq<char>)
    ensures
        sub_dist(p, t) <= lev_dist(p, t),
    decreases p.len() + t.len(),
{
    if p.len() == 0 || t.len() == 0 {
    } else {
        lemma_sub_dist_le_lev_dist(p.drop_last(), t.drop_last());
        lemma_sub_dist_le_lev_dist(p.drop_last(), t);
        lemma_sub_dist_le_lev_dist(p, t.drop_last());
    }
}

/// The code points of `s`, in order, one per character.
pub fn chars_of(s: &str) -> (v: Vec<char>)
    ensures
        v@ == s@,
{
    let n = s.unicode_len();
    let mut v: Vec<char> = Vec::new();
    let mut i: usize = 0;
    while i < n
        invariant
            i <= n,
            n == s@.len(),
            v@ == s@.take(i as int),
        decreases n - i,
    {
        let c = s.get_char(i);
        v.push(c);
        proof {
            assert(v@ =~= s@.take(i + 1));
        }
        i = i + 1;
    }
    proof {
        assert(v@ =~= s@);
    }
    v
}

/// One cell of the whole-string recurrence, memoized: the Levenshtein
/// distance between the first `i` characters of `s` and the first `j`
/// characters of `t`.  Reads the cell `(i, j)` if it is already filled,
/// otherwise computes it from strictly smaller cells and stores it.  Cells
/// are write-once: a filled cell keeps its value, only empty cells inside
/// the `(i, j)` rectangle are written, and a memo hit writes nothing.
pub fn lev_rec(rect: &mut MemoMatrix, s: &Vec<char>, t: &Vec<char>, i: usize, j: usize) -> (d: usize)
    requires
        lev_table_wf(*old(rect), s@, t@),
        i <= s@.len(),
        j <= t@.len(),
    ensures
        lev_table_wf(*final(rect), s@, t@),
        d == lev_dist(s@.take(i as int), t@.take(j as int)),
        final(rect).cell(i as int, j as int) == Some(d),
        forall|r: int, c: int|
            0 <= r <= s@.len() && 0 <= c <= t@.len() && old(rect).cell(r, c) is Some
                ==> #[trigger] final(rect).cell(r, c) == old(rect).cell(r, c),
        forall|r: int, c: int|
            0 <= r <= s@.len() && 0 <= c <= t@.len() && (r > i || c > j)
                ==> #[trigger] final(rect).cell(r, c) == old(rect).cell(r, c),
        old(rect).cell(i as int, j as int) is Some ==> *final(rect) == *old(rect),
    decreases i + j,
{
    match rect.get(i, j) {
        Some(d) => {
            proof {
                assert(cell_ok(
                    old(rect).cell(i as int, j as int),
                    lev_dist(s@.take(i as int), t@.take(j as int)),
                ));
            }
            return d;
        },
        None => {},
    }
    let ghost si = s@.take(i as int);
    let ghost tj = t@.take(j as int);
    let dist: usize;
    if i == 0 {
        dist = j;
    } else if j == 0 {
        dist = i;
    } else {
        let a = i - 1;
        let b = j - 1;
        proof {
            assert(si.last() == s@[a as int]);
            assert(tj.last() == t@[b as int]);
            assert(si.drop_last() =~= s@.take(a as int));
            assert(tj.drop_last() =~= t@.take(b as int));
        }
        if s[a] == t[b] {
            dist = lev_rec(rect, s, t, a, b);
        } else {
            let d1 = lev_rec(rect, s, t, a, b);
            let d2 = lev_rec(rect, s, t, a, j);
            let d3 = lev_rec(rect, s, t, i, b);
            let mut least = d1;
            if d2 < least {
                least = d2;
            }
            if d3 < least {
                least = d3;
            }
            proof {
                lemma_lev_dist_le_longer(s@.take(a as int), t@.take(b as int));
            }
            dist = least + 1;
        }
    }
    proof {
        assert(dist == lev_dist(si, tj));
    }
    let ghost pre = *rect;
    rect.set(i, j, dist);
    proof {
        assert forall|r: int, c: int| 0 <= r <= s@.len() && 0 <= c <= t@.len() implies cell_ok(
            #[trigger] rect.cell(r, c),
            lev_dist(s@.take(r), t@.take(c)),
        ) by {
            if r == i && c == j {
                assert(rect.cell(r, c) == Some(dist));
            } else {
                assert(rect.cell(r, c) == pre.cell(r, c));
                assert(cell_ok(pre.cell(r, c), lev_dist(s@.take(r), t@.take(c))));
            }
        }
    }
    dist
}

/// One cell of the substring recurrence, memoized: the substring-anchored
/// distance between the first `i` characters of `p` and the first `j`
/// characters of `t`.  Differs from the whole-string cell only in the base
/// case `i == 0`, which costs nothing: the text consumed so far is unmatched
/// prefix outside the match window.  Cells are write-once: a filled cell
/// keeps its value, only empty cells inside the `(i, j)` rectangle are
/// written, and a memo hit writes nothing.
pub fn lev_sub_rec(rect: &mut MemoMatrix, p: &Vec<char>, t: &Vec<char>, i: usize, j: usize) -> (d: usize)
    requires
        sub_table_wf(*old(rect), p@, t@),
        i <= p@.len(),
        j <= t@.len(),
    ensures
        sub_table_wf(*final(rect), p@, t@),
        d == sub_dist(p@.take(i as int), t@.take(j as int)),
        final(rect).cell(i as int, j as int) == Some(d),
        forall|r: int, c: int|
            0 <= r <= p@.len() && 0 <= c <= t@.len() && old(rect).cell(r, c) is Some
                ==> #[trigger] final(rect).cell(r, c) == old(rect).cell(r, c),
        forall|r: int, c: int|
            0 <= r <= p@.len() && 0 <= c <= t@.len() && (r > i || c > j)
                ==> #[trigger] final(rect).cell(r, c) == old(rect).cell(r, c),
        old(rect).cell(i as int, j as int) is Some ==> *final(rect) == *old(rect),
    decreases i + j,
{
    match rect.get(i, j) {
        Some(d) => {
            proof {
                assert(cell_ok(
                    old(rect).cell(i as int, j as int),
                    sub_dist(p@.take(i as int), t@.take(j as int)),
                ));
            }
            return d;
        },
        None => {},
    }
    let ghost pi = p@.take(i as int);
    let ghost tj = t@.take(j as int);
    let dist: usize;
    if i == 0 {
        dist = 0;
    } else if j == 0 {
        dist = i;
    } else {
        let a = i - 1;
        let b = j - 1;
        proof {
            assert(pi.last() == p@[a as int]);
            assert(tj.last() == t@[b as int]);
            assert(pi.drop_last() =~= p@.take(a as int));
            assert(tj.drop_last() =~= t@.take(b as int));
        }
        if p[a] == t[b] {
            dist = lev_sub_rec(rect, p, t, a, b);
        } else {
            let d1 = lev_sub_rec(rect, p, t, a, b);
            let d2 = lev_sub_rec(rect, p, t, a, j);
            let d3 = lev_sub_rec(rect, p, t, i, b);
            let mut least = d1;
            if d2 < least {
                least = d2;
            }
            if d3 < least {
                least = d3;
            }
            proof {
                lemma_sub_dist_le_lev_dist(p@.take(a as int), t@.take(b as int));
                lemma_lev_dist_le_longer(p@.take(a as int), t@.take(b as int));
            }
            dist = least + 1;
        }
    }
    proof {
        assert(dist == sub_dist(pi, tj));
    }
    let ghost pre = *rect;
    rect.set(i, j, dist);
    proof {
        assert forall|r: int, c: int| 0 <= r <= p@.len() && 0 <= c <= t@.len() implies cell_ok(
            #[trigger] rect.cell(r, c),
            sub_dist(p@.take(r), t@.take(c)),
        ) by {
            if r == i && c == j {
                assert(rect.cell(r, c) == Some(dist));
            } else {
                assert(rect.cell(r, c) == pre.cell(r, c));
                assert(cell_ok(pre.cell(r, c), sub_dist(p@.take(r), t@.take(c))));
            }
        }
    }
    dist
}

/// Fills every cell of a whole-string table bottom-up, row by row.  Each
/// cell is computed from its three already filled neighbours, so the fill
/// needs no recursion and long inputs cannot exhaust the call stack.
pub fn fill_lev_table(rect: &mut MemoMatrix, s: &Vec<char>, t: &Vec<char>)
    requires
        lev_table_wf(*old(rect), s@, t@),
    ensures
        lev_table_wf(*final(rect), s@, t@),
        forall|r: int, c: int|
            0 <= r <= s@.len() && 0 <= c <= t@.len() ==> (#[trigger] final(rect).cell(r, c))
                is Some,
{
    let m = s.len();
    let n = t.len();
    let mut i: usize = 0;
    while i <= m
        invariant
            lev_table_wf(*rect, s@, t@),
            m == s@.len(),
            n == t@.len(),
            i <= m + 1,
            forall|r: int, c: int|
                0 <= r < i && 0 <= c <= n ==> (#[trigger] rect.cell(r, c)) is Some,
        decreases m + 1 - i,
    {
        let mut j: usize = 0;
        while j <= n
            invariant
                lev_table_wf(*rect, s@, t@),
                m == s@.len(),
                n == t@.len(),
                i <= m,
                j <= n + 1,
                forall|r: int, c: int|
                    0 <= r < i && 0 <= c <= n ==> (#[trigger] rect.cell(r, c)) is Some,
                forall|c: int| 0 <= c < j ==> (#[trigger] rect.cell(i as int, c)) is Some,
            decreases n + 1 - j,
        {
            match rect.get(i, j) {
                Some(_) => {},
                None => {
                    let ghost si = s@.take(i as int);
                    let ghost tj = t@.take(j as int);
                    let dist: usize;
                    if i == 0 {
                        dist = j;
                    } else if j == 0 {
                        dist = i;
                    } else {
                        let a = i - 1;
                        let b = j - 1;
                        proof {
                            assert(si.last() == s@[a as int]);
                            assert(tj.last() == t@[b as int]);
                            assert(si.drop_last() =~= s@.take(a as int));
                            assert(tj.drop_last() =~= t@.take(b as int));
                        }
                        let up_left = rect.get(a, b).unwrap();
                        let up = rect.get(a, j).unwrap();
                        let left = rect.get(i, b).unwrap();
                        if s[a] == t[b] {
                            dist = up_left;
                        } else {
                            let mut least = up_left;
                            if up < least {
                                least = up;
                            }
                            if left < least {
                                least = left;
                            }
                            proof {
                                lemma_lev_dist_le_longer(s@.take(a as int), t@.take(b as int));
                            }
                            dist = least + 1;
                        }
                    }
                    proof {
                        assert(dist == lev_dist(si, tj));
                    }
                    let ghost pre = *rect;
                    rect.set(i, j, dist);
                    proof {
                        assert forall|r: int, c: int| 0 <= r <= s@.len() && 0 <= c <= t@.len()
                            implies cell_ok(#[trigger] rect.cell(r, c), lev_dist(s@.take(r), t@.take(c))) by {
                            if r == i && c == j {
                                assert(rect.cell(r, c) == Some(dist));
                            } else {
                                assert(rect.cell(r, c) == pre.cell(r, c));
                                assert(cell_ok(pre.cell(r, c), lev_dist(s@.take(r), t@.take(c))));
                            }
                        }
                    }
                },
            }
            j = j + 1;
        }
        i = i + 1;
    }
}

/// Fills every cell of a substring table bottom-up, row by row, with the
/// same neighbour rule as the whole-string fill and the substring base case
/// for row zero.
pub fn fill_sub_table(rect: &mut MemoMatrix, p: &Vec<char>, t: &Vec<char>)
    requires
        sub_table_wf(*old(rect), p@, t@),
    ensures
        sub_table_wf(*final(rect), p@, t@),
        forall|r: int, c: int|
            0 <= r <= p@.len() && 0 <= c <= t@.len() ==> (#[trigger] final(rect).cell(r, c))
                is Some,
{
    let m = p.len();
    let n = t.len();
    let mut i: usize = 0;
    while i <= m
        invariant
            sub_table_wf(*rect, p@, t@),
            m == p@.len(),
            n == t@.len(),
            i <= m + 1,
            forall|r: int, c: int|
                0 <= r < i && 0 <= c <= n ==> (#[trigger] rect.cell(r, c)) is Some,
        decreases m + 1 - i,
    {
        let mut j: usize = 0;
        while j <= n
            invariant
                sub_table_wf(*rect, p@, t@),
                m == p@.len(),
                n == t@.len(),
                i <= m,
                j <= n + 1,
                forall|r: int, c: int|
                    0 <= r < i && 0 <= c <= n ==> (#[trigger] rect.cell(r, c)) is Some,
                forall|c: int| 0 <= c < j ==> (#[trigger] rect.cell(i as int, c)) is Some,
            decreases n + 1 - j,
        {
            match rect.get(i, j) {
                Some(_) => {},
                None => {
                    let ghost pi = p@.take(i as int);
                    let ghost tj = t@.take(j as int);
                    let dist: usize;
                    if i == 0 {
                        dist = 0;
                    } else if j == 0 {
                        dist = i;
                    } else {
                        let a = i - 1;
                        let b = j - 1;
                        proof {
                            assert(pi.last() == p@[a as int]);
                            assert(tj.last() == t@[b as int]);
                            assert(pi.drop_last() =~= p@.take(a as int));
                            assert(tj.drop_last() =~= t@.take(b as int));
                        }
                        let up_left = rect.get(a, b).unwrap();
                        let up = rect.get(a, j).unwrap();
                        let left = rect.get(i, b).unwrap();
                        if p[a] == t[b] {
                            dist = up_left;
                        } else {
                            let mut least = up_left;
                            if up < least {
                                least = up;
                            }
                            if left < least {
                                least = left;
                            }
                            proof {
                                lemma_sub_dist_le_lev_dist(p@.take(a as int), t@.take(b as int));
                                lemma_lev_dist_le_longer(p@.take(a as int), t@.take(b as int));
                            }
                            dist = least + 1;
                        }
                    }
                    proof {
                        assert(dist == sub_dist(pi, tj));
                    }
                    let ghost pre = *rect;
                    rect.set(i, j, dist);
                    proof {
                        assert forall|r: int, c: int| 0 <= r <= p@.len() && 0 <= c <= t@.len()
                            implies cell_ok(#[trigger] rect.cell(r, c), sub_dist(p@.take(r), t@.take(c))) by {
                            if r == i && c == j {
                                assert(rect.cell(r, c) == Some(dist));
                            } else {
                                assert(rect.cell(r, c) == pre.cell(r, c));
                                assert(cell_ok(pre.cell(r, c), sub_dist(p@.take(r), t@.take(c))));
                            }
                        }
                    }
                },
            }
            j = j + 1;
        }
        i = i + 1;
    }
}

/// The Levenshtein distance between `s` and `t`, counted in code points.
/// The bound on the lengths only asks that one memo table for the two
/// strings fits in the address space.
pub fn levenshtein(s: &str, t: &str) -> (d: usize)
    requires
        (s@.len() + 1) * (t@.len() + 1) <= usize::MAX,
    ensures
        d == lev_dist(s@, t@),
{
    let sc = chars_of(s);
    let tc = chars_of(t);
    let m = sc.len();
    let n = tc.len();
    proof {
        assert((m + 1) * (n + 1) <= usize::MAX) by (nonlinear_arith)
            requires
                (s@.len() + 1) * (t@.len() + 1) <= usize::MAX,
                m == s@.len(),
                n == t@.len(),
        ;
        assert(m + 1 <= (m + 1) * (n + 1)) by (nonlinear_arith)
            requires
                0 <= m,
                0 <= n,
        ;
        assert(n + 1 <= (m + 1) * (n + 1)) by (nonlinear_arith)
            requires
                0 <= m,
                0 <= n,
        ;
    }
    let mut rect = MemoMatrix::new(m + 1, n + 1);
    fill_lev_table(&mut rect, &sc, &tc);
    let d = rect.get(m, n).unwrap();
    proof {
        assert(sc@.take(m as int) =~= s@);
        assert(tc@.take(n as int) =~= t@);
    }
    d
}

/// The fuzzy substring distance between `p` and `t`: the least Levenshtein
/// distance between `p` and any contiguous substring of `t`.  One memo table
/// is filled incrementally and shared across every end point of the match.
pub fn lev_substring(p: &str, t: &str) -> (d: usize)
    requires
        (p@.len() + 1) * (t@.len() + 1) <= usize::MAX,
    ensures
        d == fuzzy_dist(p@, t@),
{
    let pc = chars_of(p);
    let tc = chars_of(t);
    let m = pc.len();
    let n = tc.len();
    proof {
        assert((m + 1) * (n + 1) <= usize::MAX) by (nonlinear_arith)
            requires
                (p@.len() + 1) * (t@.len() + 1) <= usize::MAX,
                m == p@.len(),
                n == t@.len(),
        ;
        assert(m + 1 <= (m + 1) * (n + 1)) by (nonlinear_arith)
            requires
                0 <= m,
                0 <= n,
        ;
        assert(n + 1 <= (m + 1) * (n + 1)) by (nonlinear_arith)
            requires
                0 <= m,
                0 <= n,
        ;
        assert(pc@.take(m as int) =~= p@);
    }
    let mut rect = MemoMatrix::new(m + 1, n + 1);
    fill_sub_table(&mut rect, &pc, &tc);
    let mut best = rect.get(m, 0).unwrap();
    let mut k: usize = 1;
    while k <= n
        invariant
            sub_table_wf(rect, pc@, tc@),
            forall|r: int, c: int| 0 <= r <= m && 0 <= c <= n ==> (#[trigger] rect.cell(r, c)) is Some,
            pc@ == p@,
            tc@ == t@,
            m == pc@.len(),
            n == tc@.len(),
            n < usize::MAX,
            1 <= k <= n + 1,
            best == fuzzy_dist(p@, t@.take(k - 1)),
        decreases n + 1 - k,
    {
        let dk = rect.get(m, k).unwrap();
        proof {
            assert(pc@.take(m as int) =~= p@);
            assert(t@.take(k as int).drop_last() =~= t@.take(k - 1));
        }
        if dk < best {
            best = dk;
        }
        k = k + 1;
    }
    proof {
        assert(t@.take(n as int) =~= t@);
    }
    best
}

/// Whether some contiguous substring of `text` is within edit distance `k`
/// of `pattern`.
pub fn fuzzy_contains(pattern: &str, text: &str, k: usize) -> (r: bool)
    requires
        (pattern@.len() + 1) * (text@.len() + 1) <= usize::MAX,
    ensures
        r == (fuzzy_dist(pattern@, text@) <= k),
{
    lev_substring(pattern, text) <= k
}

} // verus!
