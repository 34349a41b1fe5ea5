//! Levenshtein edit distance: the recursive reference implementation (`lev`)
//! and the Wagner-Fischer dynamic-programming tabulation (`wagner_fischer`).
//!
//! Both are proved to return `edit_distance`, the classical recurrence on the
//! first symbols of the two byte sequences, so they agree on every input.

use vstd::prelude::*;
use vstd::string::StringSliceAdditionalSpecFns;

verus! {

/// Minimum of three natural numbers.
pub open spec fn min3(a: nat, b: nat, c: nat) -> nat {
    if a <= b && a <= c {
        a
    } else if b <= c {
        b
    } else {
        c
    }
}

/// Classical Levenshtein edit distance between two byte sequences, defined by
/// the recurrence on the first symbols: aligning equal first symbols is free,
/// otherwise one insertion, deletion or substitution of unit cost is spent.
pub open spec fn edit_distance(s: Seq<u8>, t: Seq<u8>) -> nat
    decreases s.len() + t.len(),
{
    if s.len() == 0 {
        t.len()
    } else if t.len() == 0 {
        s.len()
    } else if s[0] == t[0] {
        edit_distance(s.skip(1), t.skip(1))
    } else {
        1 + min3(
            edit_distance(s.skip(1), t),
            edit_distance(s, t.skip(1)),
            edit_distance(s.skip(1), t.skip(1)),
        )
    }
}

/// The edit distance never exceeds the longer of the two lengths: the longer
/// sequence can always be turned into the shorter one by substituting along
/// the overlap and deleting the excess.
pub proof fn lemma_edit_distance_le_max(s: Seq<u8>, t: Seq<u8>)
    ensures
        t.len() <= s.len() ==> edit_distance(s, t) <= s.len(),
        s.len() <= t.len() ==> edit_distance(s, t) <= t.len(),
    decreases s.len() + t.len(),
{
    if s.len() == 0 || t.len() == 0 {
    } else if s[0] == t[0] {
        lemma_edit_distance_le_max(s.skip(1), t.skip(1));
    } else {
        lemma_edit_distance_le_max(s.skip(1), t.skip(1));
    }
}

/// The edit distance is bounded by the sum of the two lengths: deleting all of
/// one sequence and inserting all of the other is always an available plan.
pub proof fn lemma_edit_distance_le_sum(s: Seq<u8>, t: Seq<u8>)
    ensures
        edit_distance(s, t) <= s.len() + t.len(),
{
    lemma_edit_distance_le_max(s, t);
}

/// A sequence is at edit distance zero from itself.
pub proof fn lemma_edit_distance_identity(s: Seq<u8>)
    ensures
        edit_distance(s, s) == 0,
    decreases s.len(),
{
    if s.len() > 0 {
        lemma_edit_distance_identity(s.skip(1));
    }
}

/// The edit distance is symmetric in its two arguments: every insertion into
/// one sequence is a deletion from the other.
pub proof fn lemma_edit_distance_symmetric(s: Seq<u8>, t: Seq<u8>)
    ensures
        edit_distance(s, t) == edit_distance(t, s),
    decreases s.len() + t.len(),
{
    if s.len() == 0 || t.len() == 0 {
    } else if s[0] == t[0] {
        lemma_edit_distance_symmetric(s.skip(1), t.skip(1));
    } else {
        lemma_edit_distance_symmetric(s.skip(1), t);
        lemma_edit_distance_symmetric(s, t.skip(1));
        lemma_edit_distance_symmetric(s.skip(1), t.skip(1));
    }
}

/// `edit_distance` is defined by peeling symbols off the front, but the
/// Wagner-Fischer table grows prefixes at their back: entry (i, j) of the
/// table is the distance between the first i symbols of one sequence and the
/// first j of the other. This lemma shows that the front-recursive function
/// also satisfies the recurrence on the last symbols, which is exactly the
/// step the table takes. The proof expands both sides one front symbol and
/// closes by induction; in the general case each side becomes the minimum of
/// the same nine terms.
#[verifier::rlimit(100)]
pub proof fn lemma_edit_distance_last(s: Seq<u8>, t: Seq<u8>)
    requires
        s.len() >= 1,
        t.len() >= 1,
    ensures
        edit_distance(s, t) == min3(
            edit_distance(s.drop_last(), t) + 1,
            edit_distance(s, t.drop_last()) + 1,
            edit_distance(s.drop_last(), t.drop_last()) + if s.last() == t.last() {
                0nat
            } else {
                1nat
            },
        ),
    decreases s.len() + t.len(),
{
    let sp = s.skip(1);
    let tp = t.skip(1);
    let sd = s.drop_last();
    let td = t.drop_last();
    if s.len() >= 2 {
        assert(sp.drop_last() =~= sd.skip(1));
        assert(sd[0] == s[0]);
        assert(sp.last() == s.last());
    }
    if t.len() >= 2 {
        assert(tp.drop_last() =~= td.skip(1));
        assert(td[0] == t[0]);
        assert(tp.last() == t.last());
    }
    if s.len() == 1 && t.len() == 1 {
        assert(sd.len() == 0);
        assert(td.len() == 0);
        assert(s.last() == s[0]);
        assert(t.last() == t[0]);
        assert(edit_distance(sd, t) == 1);
        assert(edit_distance(s, td) == 1);
        assert(edit_distance(sd, td) == 0);
        if s[0] == t[0] {
            assert(edit_distance(s, t) == edit_distance(sp, tp));
            assert(edit_distance(sp, tp) == 0);
        } else {
            assert(edit_distance(sp, t) == 1);
            assert(edit_distance(s, tp) == 1);
            assert(edit_distance(sp, tp) == 0);
            assert(edit_distance(s, t) == 1 + min3(
                edit_distance(sp, t),
                edit_distance(s, tp),
                edit_distance(sp, tp),
            ));
        }
    } else if s.len() == 1 {
        // s is a single symbol; expand t one symbol from the front and apply
        // the induction hypothesis to (s, tail of t).
        let tpd = tp.drop_last();
        assert(sd.len() == 0);
        assert(s.last() == s[0]);
        lemma_edit_distance_last(s, tp);
        assert(edit_distance(sd, t) == t.len());
        assert(edit_distance(sd, tp) == tp.len());
        assert(edit_distance(sd, td) == td.len());
        assert(edit_distance(sd, tpd) == tpd.len());
        if s[0] == t[0] {
            assert(edit_distance(s, t) == edit_distance(sp, tp));
            assert(edit_distance(sp, tp) == tp.len());
            assert(edit_distance(s, td) == edit_distance(sp, tpd));
            assert(edit_distance(sp, tpd) == tpd.len());
        } else {
            assert(edit_distance(s, t) == 1 + min3(
                edit_distance(sp, t),
                edit_distance(s, tp),
                edit_distance(sp, tp),
            ));
            assert(edit_distance(sp, t) == t.len());
            assert(edit_distance(sp, tp) == tp.len());
            assert(edit_distance(s, td) == 1 + min3(
                edit_distance(sp, td),
                edit_distance(s, tpd),
                edit_distance(sp, tpd),
            ));
            assert(edit_distance(sp, td) == td.len());
            assert(edit_distance(sp, tpd) == tpd.len());
        }
    } else if t.len() == 1 {
        // Mirror image of the previous case.
        let spd = sp.drop_last();
        assert(td.len() == 0);
        assert(t.last() == t[0]);
        lemma_edit_distance_last(sp, t);
        assert(edit_distance(s, td) == s.len());
        assert(edit_distance(sp, td) == sp.len());
        assert(edit_distance(sd, td) == sd.len());
        assert(edit_distance(spd, td) == spd.len());
        if s[0] == t[0] {
            assert(edit_distance(s, t) == edit_distance(sp, tp));
            assert(edit_distance(sp, tp) == sp.len());
            assert(edit_distance(sd, t) == edit_distance(spd, tp));
            assert(edit_distance(spd, tp) == spd.len());
        } else {
            assert(edit_distance(s, t) == 1 + min3(
                edit_distance(sp, t),
                edit_distance(s, tp),
                edit_distance(sp, tp),
            ));
            assert(edit_distance(s, tp) == s.len());
            assert(edit_distance(sp, tp) == sp.len());
            assert(edit_distance(sd, t) == 1 + min3(
                edit_distance(spd, t),
                edit_distance(sd, tp),
                edit_distance(spd, tp),
            ));
            assert(edit_distance(sd, tp) == sd.len());
            assert(edit_distance(spd, tp) == spd.len());
        }
    } else {
        let spd = sp.drop_last();
        let tpd = tp.drop_last();
        if s[0] == t[0] {
            // Every term on both sides drops the shared first symbol, and the
            // induction hypothesis on the two tails closes the goal.
            lemma_edit_distance_last(sp, tp);
            assert(edit_distance(s, t) == edit_distance(sp, tp));
            assert(edit_distance(sd, t) == edit_distance(spd, tp));
            assert(edit_distance(s, td) == edit_distance(sp, tpd));
            assert(edit_distance(sd, td) == edit_distance(spd, tpd));
        } else {
            // Expand the left side with the induction hypothesis and the
            // right side by the front recurrence: both become the minimum of
            // the same nine terms.
            lemma_edit_distance_last(sp, t);
            lemma_edit_distance_last(s, tp);
            lemma_edit_distance_last(sp, tp);
            assert(edit_distance(s, t) == 1 + min3(
                edit_distance(sp, t),
                edit_distance(s, tp),
                edit_distance(sp, tp),
            ));
            assert(edit_distance(sd, t) == 1 + min3(
                edit_distance(spd, t),
                edit_distance(sd, tp),
                edit_distance(spd, tp),
            ));
            assert(edit_distance(s, td) == 1 + min3(
                edit_distance(sp, td),
                edit_distance(s, tpd),
                edit_distance(sp, tpd),
            ));
            assert(edit_distance(sd, td) == 1 + min3(
                edit_distance(spd, td),
                edit_distance(sd, tpd),
                edit_distance(spd, tpd),
            ));
        }
    }
}

/// Recursive edit distance on the byte suffixes `a[ai..]` and `b[bi..]`,
/// with the matching-prefix fast path taken before the general three-way
/// recurrence, exactly as `edit_distance` is defined.
fn lev_suffix(a: &[u8], b: &[u8], ai: usize, bi: usize) -> (r: usize)
    requires
        ai <= a@.len(),
        bi <= b@.len(),
    ensures
        r as nat == edit_distance(a@.skip(ai as int), b@.skip(bi as int)),
    decreases a@.len() - ai + b@.len() - bi,
{
    let ghost sa = a@.skip(ai as int);
    let ghost sb = b@.skip(bi as int);
    if a.len() == ai {
        return b.len() - bi;
    }
    if b.len() == bi {
        return a.len() - ai;
    }
    proof {
        assert(sa[0] == a@[ai as int]);
        assert(sb[0] == b@[bi as int]);
        assert(sa.skip(1) =~= a@.skip(ai + 1));
        assert(sb.skip(1) =~= b@.skip(bi + 1));
    }
    if a[ai] == b[bi] {
        return lev_suffix(a, b, ai + 1, bi + 1);
    }
    let del = lev_suffix(a, b, ai + 1, bi);
    let ins = lev_suffix(a, b, ai, bi + 1);
    let sub = lev_suffix(a, b, ai + 1, bi + 1);
    proof {
        lemma_edit_distance_le_max(a@.skip(ai + 1), b@.skip(bi + 1));
    }
    1 + min_usize(min_usize(del, ins), sub)
}

/// Minimum of two machine integers.
pub(crate) fn min_usize(a: usize, b: usize) -> (r: usize)
    ensures
        r == if a <= b {
            a
        } else {
            b
        },
{
    if a <= b {
        a
    } else {
        b
    }
}

/// Naive recursive Levenshtein distance between two strings, compared byte by
/// byte. Equal leading bytes are skipped without cost before the three-way
/// recurrence is tried; the recursion re-derives overlapping subproblems and
/// is exponential in the worst case, so it serves as the reference
/// implementation, not the performant one (`wagner_fischer` is).
pub fn lev(a: &str, b: &str) -> (r: usize)
    ensures
        r as nat == edit_distance(a.spec_bytes(), b.spec_bytes()),
{
    let ab = a.as_bytes();
    let bb = b.as_bytes();
    proof {
        assert(ab@.skip(0) =~= ab@);
        assert(bb@.skip(0) =~= bb@);
    }
    lev_suffix(ab, bb, 0, 0)
}

/// Wagner-Fischer dynamic-programming edit distance, compared byte by byte.
/// A full (m+1) x (n+1) table is built: row 0 and column 0 hold the distances
/// to the empty prefix, and entry (i, j) holds the distance between the first
/// i bytes of `s` and the first j bytes of `t`, each entry the minimum of a
/// deletion, an insertion and a substitution. The result equals `lev`'s on
/// every input, since both return `edit_distance`. Each input must be short
/// enough that the table's m+1 rows and n+1 columns can still be counted in
/// a machine word.
#[verifier::loop_isolation(false)]
pub fn wagner_fischer(s: &str, t: &str) -> (r: usize)
    requires
        s.spec_bytes().len() < usize::MAX,
        t.spec_bytes().len() < usize::MAX,
    ensures
        r as nat == edit_distance(s.spec_bytes(), t.spec_bytes()),
{
    let sb = s.as_bytes();
    let tb = t.as_bytes();
    let ghost sq = sb@;
    let ghost tq = tb@;
    let m = sb.len();
    let n = tb.len();
    let mut d: Vec<Vec<usize>> = Vec::new();

    let mut row0: Vec<usize> = Vec::new();
    let mut j: usize = 0;
    while j <= n
        invariant
            j <= n + 1,
            row0@.len() == j,
            forall|jj: int| 0 <= jj < j ==> row0@[jj] == jj,
        decreases n + 1 - j,
    {
        row0.push(j);
        j = j + 1;
    }
    proof {
        assert forall|jj: int| 0 <= jj <= n implies row0@[jj] as nat == edit_distance(
            sq.take(0),
            tq.take(jj),
        ) by {
            assert(sq.take(0).len() == 0);
            assert(tq.take(jj).len() == jj);
        }
    }
    d.push(row0);

    let mut i: usize = 1;
    while i <= m
        invariant
            1 <= i <= m + 1,
            d@.len() == i,
            forall|ii: int| 0 <= ii < i ==> #[trigger] d@[ii]@.len() == n + 1,
            forall|ii: int, jj: int|
                0 <= ii < i && 0 <= jj <= n ==> #[trigger] d@[ii]@[jj] as nat == edit_distance(
                    sq.take(ii),
                    tq.take(jj),
                ),
        decreases m + 1 - i,
    {
        let mut row: Vec<usize> = Vec::new();
        row.push(i);
        proof {
            assert(sq.take(i as int).len() == i);
            assert(tq.take(0).len() == 0);
            assert(edit_distance(sq.take(i as int), tq.take(0)) == i);
        }
        let mut j: usize = 1;
        while j <= n
            invariant
                1 <= j <= n + 1,
                1 <= i <= m,
                d@.len() == i,
                row@.len() == j,
                forall|jj: int|
                    0 <= jj < j ==> row@[jj] as nat == edit_distance(
                        sq.take(i as int),
                        tq.take(jj),
                    ),
            decreases n + 1 - j,
        {
            let cost: usize = if sb[i - 1] == tb[j - 1] {
                0
            } else {
                1
            };
            proof {
                lemma_edit_distance_le_max(sq.take(i - 1), tq.take(j as int));
                lemma_edit_distance_le_max(sq.take(i as int), tq.take(j - 1));
                lemma_edit_distance_le_max(sq.take(i - 1), tq.take(j - 1));
            }
            let del = d[i - 1][j] + 1;
            let ins = row[j - 1] + 1;
            let sub = d[i - 1][j - 1] + cost;
            let val = min_usize(min_usize(del, ins), sub);
            proof {
                lemma_edit_distance_last(sq.take(i as int), tq.take(j as int));
                assert(sq.take(i as int).drop_last() =~= sq.take(i - 1));
                assert(tq.take(j as int).drop_last() =~= tq.take(j - 1));
                assert(sq.take(i as int).last() == sq[i - 1]);
                assert(tq.take(j as int).last() == tq[j - 1]);
            }
            row.push(val);
            j = j + 1;
        }
        d.push(row);
        i = i + 1;
    }
    proof {
        assert(sq.take(m as int) =~= sq);
        assert(tq.take(n as int) =~= tq);
    }
    d[m][n]
}

} // verus!
