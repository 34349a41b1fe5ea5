//! Optimal string alignment distance: the Wagner-Fischer table extended with
//! a restricted adjacent-transposition rule. Unlike unrestricted
//! Damerau-Levenshtein, a transposed pair cannot be edited further, which is
//! why the recurrence only ever reaches back to entry (i-2, j-2).
//!
//! The transposition test compares the last symbol of each prefix with the
//! next-to-last symbol of the other (the textbook rule), and the main loops
//! run through the full table bounds, so the bottom-right entry is computed
//! by the recurrence rather than left at its initial value.

use crate::edit_distance::min3;
use crate::edit_distance::min_usize;
use vstd::prelude::*;
use vstd::string::StringSliceAdditionalSpecFns;

verus! {

/// Optimal string alignment distance between two byte sequences, defined by
/// the recurrence on the last symbols: a deletion, an insertion or a
/// substitution of unit cost, and, when the two final pairs are each other's
/// swap, a unit-cost transposition of the two last symbols.
pub open spec fn osa_dist(a: Seq<u8>, b: Seq<u8>) -> nat
    decreases a.len() + b.len(),
{
    if a.len() == 0 {
        b.len()
    } else if b.len() == 0 {
        a.len()
    } else {
        let base = min3(
            osa_dist(a.drop_last(), b) + 1,
            osa_dist(a, b.drop_last()) + 1,
            osa_dist(a.drop_last(), b.drop_last()) + if a.last() == b.last() {
                0nat
            } else {
                1nat
            },
        );
        if a.len() >= 2 && b.len() >= 2 && a[a.len() - 1] == b[b.len() - 2] && a[a.len() - 2]
            == b[b.len() - 1] {
            let transposed = osa_dist(a.take(a.len() - 2), b.take(b.len() - 2)) + 1;
            if transposed < base {
                transposed
            } else {
                base
            }
        } else {
            base
        }
    }
}

/// The distance never exceeds the longer of the two lengths.
pub proof fn lemma_osa_dist_le_max(a: Seq<u8>, b: Seq<u8>)
    ensures
        b.len() <= a.len() ==> osa_dist(a, b) <= a.len(),
        a.len() <= b.len() ==> osa_dist(a, b) <= b.len(),
    decreases a.len() + b.len(),
{
    if a.len() == 0 || b.len() == 0 {
    } else {
        lemma_osa_dist_le_max(a.drop_last(), b);
        lemma_osa_dist_le_max(a, b.drop_last());
        lemma_osa_dist_le_max(a.drop_last(), b.drop_last());
    }
}

/// A sequence is at distance zero from itself.
pub proof fn lemma_osa_dist_identity(a: Seq<u8>)
    ensures
        osa_dist(a, a) == 0,
    decreases a.len(),
{
    if a.len() > 0 {
        lemma_osa_dist_identity(a.drop_last());
    }
}

/// Optimal string alignment distance between two strings, compared byte by
/// byte. The full table is tabulated exactly as in `wagner_fischer`, and
/// whenever the two latest symbols of one prefix are the swap of the other's,
/// a unit-cost transposition from entry (i-2, j-2) competes in the minimum.
/// Each input must be short enough that the table's m+1 rows and n+1 columns
/// can still be counted in a machine word.
#[verifier::loop_isolation(false)]
pub fn osa_distance(a: &str, b: &str) -> (r: usize)
    requires
        a.spec_bytes().len() < usize::MAX,
        b.spec_bytes().len() < usize::MAX,
    ensures
        r as nat == osa_dist(a.spec_bytes(), b.spec_bytes()),
{
    let ab = a.as_bytes();
    let bb = b.as_bytes();
    let ghost aq = ab@;
    let ghost bq = bb@;
    let m = ab.len();
    let n = bb.len();
    let mut d: Vec<Vec<usize>> = Vec::new();

    let mut row0: Vec<usize> = Vec::new();
    let mut j: usize = 0;
    while j <= n
        invariant
            j <= n + 1,
            row0@.len() == j,
            forall|jj: int| 0 <= jj < j ==> row0@[jj] == jj,
        decreases n + 1 - j,
    {
        row0.push(j);
        j = j + 1;
    }
    proof {
        assert forall|jj: int| 0 <= jj <= n implies row0@[jj] as nat == osa_dist(
            aq.take(0),
            bq.take(jj),
        ) by {
            assert(aq.take(0).len() == 0);
            assert(bq.take(jj).len() == jj);
        }
    }
    d.push(row0);

    let mut i: usize = 1;
    while i <= m
        invariant
            1 <= i <= m + 1,
            d@.len() == i,
            forall|ii: int| 0 <= ii < i ==> #[trigger] d@[ii]@.len() == n + 1,
            forall|ii: int, jj: int|
                0 <= ii < i && 0 <= jj <= n ==> #[trigger] d@[ii]@[jj] as nat == osa_dist(
                    aq.take(ii),
                    bq.take(jj),
                ),
        decreases m + 1 - i,
    {
        let mut row: Vec<usize> = Vec::new();
        row.push(i);
        proof {
            assert(aq.take(i as int).len() == i);
            assert(bq.take(0).len() == 0);
            assert(osa_dist(aq.take(i as int), bq.take(0)) == i);
        }
        let mut j: usize = 1;
        while j <= n
            invariant
                1 <= j <= n + 1,
                1 <= i <= m,
                d@.len() == i,
                row@.len() == j,
                forall|jj: int|
                    0 <= jj < j ==> #[trigger] row@[jj] as nat == osa_dist(
                        aq.take(i as int),
                        bq.take(jj),
                    ),
            decreases n + 1 - j,
        {
            let cost: usize = if ab[i - 1] == bb[j - 1] {
                0
            } else {
                1
            };
            proof {
                lemma_osa_dist_le_max(aq.take(i - 1), bq.take(j as int));
                lemma_osa_dist_le_max(aq.take(i as int), bq.take(j - 1));
                lemma_osa_dist_le_max(aq.take(i - 1), bq.take(j - 1));
            }
            let del = d[i - 1][j] + 1;
            let ins = row[j - 1] + 1;
            let sub = d[i - 1][j - 1] + cost;
            let mut val = min_usize(min_usize(del, ins), sub);
            proof {
                assert(aq.take(i as int).drop_last() =~= aq.take(i - 1));
                assert(bq.take(j as int).drop_last() =~= bq.take(j - 1));
                assert(aq.take(i as int).last() == aq[i - 1]);
                assert(bq.take(j as int).last() == bq[j - 1]);
            }
            if i > 1 && j > 1 && ab[i - 1] == bb[j - 2] && ab[i - 2] == bb[j - 1] {
                proof {
                    lemma_osa_dist_le_max(aq.take(i - 2), bq.take(j - 2));
                    assert(aq.take(i as int).take(i - 2) =~= aq.take(i - 2));
                    assert(bq.take(j as int).take(j - 2) =~= bq.take(j - 2));
                }
                val = min_usize(val, d[i - 2][j - 2] + 1);
            } else {
                proof {
                    assert(!(i > 1 && j > 1 && aq.take(i as int)[i - 1] == bq.take(j as int)[j - 2]
                        && aq.take(i as int)[i - 2] == bq.take(j as int)[j - 1]));
                }
            }
            proof {
                assert(val as nat == osa_dist(aq.take(i as int), bq.take(j as int)));
            }
            row.push(val);
            j = j + 1;
        }
        d.push(row);
        i = i + 1;
    }
    proof {
        assert(aq.take(m as int) =~= aq);
        assert(bq.take(n as int) =~= bq);
    }
    d[m][n]
}

} // verus!
