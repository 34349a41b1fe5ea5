//! Bit-parallel exact substring search (shift-or). The match state of every
//! pattern prefix is packed into one 64-bit register: after the text bytes up
//! to position i have been scanned, bit j of the register is clear exactly
//! when the j-byte pattern prefix ends at position i. The register starts
//! with the seed bit (bit 0, the empty prefix) clear and every other bit
//! set; each text byte folds its pattern mask in and the shift moves every
//! prefix one position forward, seeding a fresh window at the same time. A
//! clear match bit therefore reports the first occurrence of the whole
//! pattern, wherever it starts, offset 0 included.

use vstd::prelude::*;
use vstd::string::StringSliceAdditionalSpecFns;

verus! {

/// The first `len` bytes of `p` occur in `t` at offset `q`.
pub open spec fn prefix_match_at(t: Seq<u8>, p: Seq<u8>, q: int, len: int) -> bool {
    &&& 0 <= q
    &&& 0 <= len <= p.len()
    &&& q + len <= t.len()
    &&& forall|k: int| 0 <= k < len ==> t[q + k] == p[k]
}

/// The whole pattern `p` occurs in `t` at offset `q`.
pub open spec fn match_at(t: Seq<u8>, p: Seq<u8>, q: int) -> bool {
    prefix_match_at(t, p, q, p.len() as int)
}

/// Bit `j` of `x` is set.
pub open spec fn get_bit(x: u64, j: u64) -> bool {
    (x >> j) & 1 == 1
}

proof fn lemma_all_ones_bit(j: u64)
    by (bit_vector)
    requires
        j < 64,
    ensures
        get_bit(u64::MAX, j),
{
}

proof fn lemma_seed_bit(j: u64)
    by (bit_vector)
    requires
        j < 64,
    ensures
        get_bit(!1u64, j) == (j != 0),
{
}

proof fn lemma_clear_bit(x: u64, k: u64, j: u64)
    by (bit_vector)
    requires
        k < 64,
        j < 64,
    ensures
        get_bit(x & !(1u64 << k), j) == (j != k && get_bit(x, j)),
{
}

proof fn lemma_shift_or_bit(x: u64, mk: u64, j: u64)
    by (bit_vector)
    requires
        1 <= j < 64,
    ensures
        get_bit((x | mk) << 1, j) == (get_bit(x, (j - 1) as u64) || get_bit(mk, (j - 1) as u64)),
        !get_bit((x | mk) << 1, 0),
{
}

proof fn lemma_test_bit(x: u64, j: u64)
    by (bit_vector)
    requires
        j < 64,
    ensures
        (x & (1u64 << j) == 0) == !get_bit(x, j),
{
}

/// The mask table carries one 64-bit mask per byte value: bit `j` of the mask
/// of byte `c` is clear exactly when the pattern byte at position `j < upto`
/// is `c`.
spec fn masks_ok(masks: Seq<u64>, p: Seq<u8>, upto: int) -> bool {
    &&& masks.len() == 256
    &&& forall|c: int, j: u64|
        0 <= c < 256 && j < 64 ==> (!#[trigger] get_bit(masks[c], j) <==> j < upto && p[j as int]
            == c as u8)
}

/// Shift-or exact substring search, compared byte by byte. Returns the
/// 0-based byte offset of the first occurrence of `pattern` in `text`, and
/// nothing when the pattern does not occur; the scan stops at the first
/// match. The empty pattern matches at offset 0 unconditionally, and a
/// pattern longer than 31 bytes exceeds what the register encodes, so the
/// search is declined with no offset.
#[verifier::loop_isolation(false)]
#[verifier::rlimit(100)]
pub fn bitap_bitwise_search(text: &str, pattern: &str) -> (r: Option<usize>)
    ensures
        pattern.spec_bytes().len() == 0 ==> r == Some(0usize),
        pattern.spec_bytes().len() > 31 ==> r is None,
        1 <= pattern.spec_bytes().len() <= 31 ==> (r matches Some(q) ==> match_at(
            text.spec_bytes(),
            pattern.spec_bytes(),
            q as int,
        ) && forall|q2: int| 0 <= q2 < q ==> !match_at(text.spec_bytes(), pattern.spec_bytes(), q2)),
        (1 <= pattern.spec_bytes().len() <= 31 && r is None) ==> forall|q2: int|
            !match_at(text.spec_bytes(), pattern.spec_bytes(), q2),
{
    let tb = text.as_bytes();
    let pb = pattern.as_bytes();
    let ghost tq = tb@;
    let ghost pq = pb@;
    let m = pb.len();

    if m == 0 {
        return Some(0);
    }
    if m > 31 {
        return None;
    }
    let ghost m64 = m as u64;

    let mut masks: Vec<u64> = Vec::new();
    let mut c: usize = 0;
    while c < 256
        invariant
            c <= 256,
            masks@.len() == c,
            forall|cc: int| 0 <= cc < c ==> masks@[cc] == u64::MAX,
        decreases 256 - c,
    {
        masks.push(u64::MAX);
        c = c + 1;
    }
    proof {
        assert forall|cc: int, j: u64| 0 <= cc < 256 && j < 64 implies (!#[trigger] get_bit(
            masks@[cc],
            j,
        ) <==> j < 0 && pq[j as int] == cc as u8) by {
            lemma_all_ones_bit(j);
        }
        assert(masks_ok(masks@, pq, 0));
    }

    let mut k: usize = 0;
    while k < m
        invariant
            k <= m,
            masks_ok(masks@, pq, k as int),
        decreases m - k,
    {
        let ci = pb[k] as usize;
        let ghost old_masks = masks@;
        let cleared = masks[ci] & !(1u64 << (k as u64));
        masks[ci] = cleared;
        proof {
            assert(masks@ =~= old_masks.update(ci as int, cleared));
            assert forall|cc: int, j: u64| 0 <= cc < 256 && j < 64 implies (!#[trigger] get_bit(
                masks@[cc],
                j,
            ) <==> j < k + 1 && pq[j as int] == cc as u8) by {
                if cc == ci {
                    lemma_clear_bit(old_masks[cc], k as u64, j);
                    assert(pq[k as int] == cc as u8);
                } else {
                    assert(masks@[cc] == old_masks[cc]);
                    if j == k {
                        assert(pq[j as int] != cc as u8);
                    }
                }
            }
        }
        k = k + 1;
    }

    // The seed bit is clear from the start, so the window that begins at
    // offset 0 competes like every later one.
    let mut r: u64 = !1u64;
    proof {
        assert forall|j: u64| j < 64 implies get_bit(r, j) == (j != 0) by {
            lemma_seed_bit(j);
        }
    }
    let mut i: usize = 0;
    while i < tb.len()
        invariant
            i <= tq.len(),
            masks_ok(masks@, pq, m as int),
            !get_bit(r, 0),
            forall|j: u64|
                1 <= j <= m64 ==> (!#[trigger] get_bit(r, j) <==> (j <= i && prefix_match_at(
                    tq,
                    pq,
                    i - j,
                    j as int,
                ))),
            forall|q: int| 0 <= q && q + m <= i ==> !match_at(tq, pq, q),
        decreases tq.len() - i,
    {
        let c = tb[i] as usize;
        let mkc = masks[c];
        let ghost old_r = r;
        r = (r | mkc) << 1;
        proof {
            assert(tq[i as int] == c as u8);
            lemma_shift_or_bit(old_r, mkc, 1);
            assert forall|j: u64| 1 <= j <= m64 implies (!#[trigger] get_bit(r, j) <==> (j <= i + 1
                && prefix_match_at(tq, pq, i + 1 - j, j as int))) by {
                lemma_shift_or_bit(old_r, mkc, j);
                let jm = (j - 1) as u64;
                assert(!get_bit(mkc, jm) <==> jm < m64 && pq[jm as int] == c as u8);
                let q = i + 1 - j as int;
                if j == 1 {
                    if !get_bit(r, j) {
                        assert(pq[0] == tq[i as int]);
                        assert(prefix_match_at(tq, pq, q, 1)) by {
                            assert(forall|kk: int| 0 <= kk < 1 ==> tq[q + kk] == pq[kk]);
                        }
                    }
                    if j <= i + 1 && prefix_match_at(tq, pq, q, 1) {
                        assert(tq[q + 0] == pq[0]);
                        assert(!get_bit(old_r, 0));
                        assert(!get_bit(mkc, 0));
                    }
                } else {
                    assert(!get_bit(old_r, jm) <==> (jm <= i && prefix_match_at(
                        tq,
                        pq,
                        i - jm,
                        jm as int,
                    )));
                    if !get_bit(r, j) {
                        assert(prefix_match_at(tq, pq, q, jm as int));
                        assert(tq[q + jm] == pq[jm as int]);
                        assert(prefix_match_at(tq, pq, q, j as int)) by {
                            assert forall|kk: int| 0 <= kk < j implies tq[q + kk] == pq[kk] by {
                                if kk < jm {
                                    assert(tq[q + kk] == pq[kk]);
                                } else {
                                    assert(kk == jm as int);
                                }
                            }
                        }
                    }
                    if j <= i + 1 && prefix_match_at(tq, pq, q, j as int) {
                        assert(prefix_match_at(tq, pq, q, jm as int)) by {
                            assert(forall|kk: int|
                                0 <= kk < jm ==> tq[q + kk] == pq[kk]);
                        }
                        assert(tq[q + jm] == pq[jm as int]);
                        assert(!get_bit(old_r, jm));
                        assert(!get_bit(mkc, jm));
                    }
                }
            }
        }
        if r & (1u64 << (m as u64)) == 0 {
            proof {
                lemma_test_bit(r, m as u64);
                assert(!get_bit(r, m64));
                assert(prefix_match_at(tq, pq, i + 1 - m, m as int));
                assert(match_at(tq, pq, i + 1 - m));
                assert forall|q2: int| 0 <= q2 < i + 1 - m implies !match_at(tq, pq, q2) by {
                    assert(q2 + m <= i);
                }
            }
            return Some(i + 1 - m);
        }
        proof {
            assert forall|q: int| 0 <= q && q + m <= i + 1 implies !match_at(tq, pq, q) by {
                if q + m == i + 1 {
                    if match_at(tq, pq, q) {
                        lemma_test_bit(r, m64);
                        assert(prefix_match_at(tq, pq, i + 1 - m64, m64 as int));
                        assert(!get_bit(r, m64));
                    }
                }
            }
        }
        i = i + 1;
    }
    proof {
        assert forall|q2: int| !match_at(tq, pq, q2) by {
            if match_at(tq, pq, q2) {
                assert(0 <= q2 && q2 + m <= tq.len());
            }
        }
    }
    None
}

} // verus!
