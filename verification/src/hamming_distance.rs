//! Fixed-width binary vectors and the Hamming distance between them.
//!
//! A `BitVec<N>` holds exactly N symbols from the alphabet {'0', '1'},
//! normally obtained by validated parsing. Two vectors of different declared
//! widths cannot be compared: the width is a type parameter. The distance is
//! the count of positions at which the two vectors differ, computed as the
//! sum of the per-position XOR of the symbol bytes, which is 0 or 1 because
//! the symbols are restricted to the two ASCII digits.

use vstd::prelude::*;
use vstd::string::StringSliceAdditionalSpecFns;

verus! {

/// Why a string failed to parse as a `BitVec`.
#[derive(Debug, Copy, Clone, PartialEq, Eq, Structural)]
pub enum BitVecError {
    /// The symbol count does not match the declared width.
    InvalidLength,
    /// A symbol outside {'0', '1'} occurred.
    InvalidValue,
}

impl BitVecError {
    /// A human-readable description of the failure.
    pub fn message(&self) -> (r: String)
        ensures
            *self == BitVecError::InvalidLength ==> r@ == "Invalid Length for BitVec"@,
            *self == BitVecError::InvalidValue ==> r@
                == "Invalid value for BitVec - elements can only be 0 or 1"@,
    {
        match self {
            BitVecError::InvalidLength => "Invalid Length for BitVec".to_owned(),
            BitVecError::InvalidValue => "Invalid value for BitVec - elements can only be 0 or 1".to_owned(),
        }
    }
}

/// The byte is one of the two permitted symbols, the ASCII digits '0' and '1'.
pub open spec fn bit_byte(x: u8) -> bool {
    x == 48 || x == 49
}

/// Count of positions at which two equal-length byte sequences differ.
pub open spec fn hamming_spec(a: Seq<u8>, b: Seq<u8>) -> nat
    decreases a.len(),
{
    if a.len() == 0 {
        0
    } else {
        hamming_spec(a.drop_last(), b.drop_last()) + if a.last() == b.last() {
            0nat
        } else {
            1nat
        }
    }
}

/// The Hamming distance is symmetric: a position differs in one order exactly
/// when it differs in the other.
pub proof fn lemma_hamming_symmetric(a: Seq<u8>, b: Seq<u8>)
    requires
        a.len() == b.len(),
    ensures
        hamming_spec(a, b) == hamming_spec(b, a),
    decreases a.len(),
{
    if a.len() > 0 {
        lemma_hamming_symmetric(a.drop_last(), b.drop_last());
    }
}

/// A vector of exactly N binary symbols.
pub struct BitVec<const N: usize> {
    elems: Vec<u8>,
}

impl<const N: usize> View for BitVec<N> {
    type V = Seq<u8>;

    closed spec fn view(&self) -> Seq<u8> {
        self.elems@
    }
}

impl<const N: usize> BitVec<N> {
    /// The vector holds exactly N symbols.
    pub open spec fn wf(&self) -> bool {
        self@.len() == N
    }

    /// Every symbol is one of the two ASCII digits, as validated parsing
    /// guarantees.
    pub open spec fn is_binary(&self) -> bool {
        forall|k: int| 0 <= k < self@.len() ==> bit_byte(#[trigger] self@[k])
    }

    /// Wraps N raw symbol bytes as a vector, without validating them.
    pub fn new(elems: [u8; N]) -> (r: Self)
        ensures
            r@ == elems@,
            r.wf(),
    {
        let mut v: Vec<u8> = Vec::new();
        let mut k: usize = 0;
        while k < N
            invariant
                k <= N,
                v@ =~= elems@.take(k as int),
            decreases N - k,
        {
            v.push(elems[k]);
            k = k + 1;
        }
        proof {
            assert(elems@.take(N as int) =~= elems@);
        }
        Self { elems: v }
    }

    /// Count of positions at which this vector and `other` differ, as the sum
    /// of the per-position XOR of the symbol bytes.
    #[verifier::loop_isolation(false)]
    pub fn hamming_distance(&self, other: &BitVec<N>) -> (r: u8)
        requires
            self.wf(),
            other.wf(),
            self.is_binary(),
            other.is_binary(),
            N <= u8::MAX,
        ensures
            r as nat == hamming_spec(self@, other@),
            r <= N,
    {
        let mut sum: u8 = 0;
        let mut k: usize = 0;
        while k < N
            invariant
                k <= N,
                sum <= k,
                sum as nat == hamming_spec(self@.take(k as int), other@.take(k as int)),
            decreases N - k,
        {
            let x = self.elems[k];
            let y = other.elems[k];
            let d = x ^ y;
            proof {
                assert(x ^ y == (if x == y {
                    0u8
                } else {
                    1u8
                })) by (bit_vector)
                    requires
                        (x == 48 || x == 49) && (y == 48 || y == 49),
                ;
                assert(self@.take(k + 1).drop_last() =~= self@.take(k as int));
                assert(other@.take(k + 1).drop_last() =~= other@.take(k as int));
                assert(self@.take(k + 1).last() == self@[k as int]);
                assert(other@.take(k + 1).last() == other@[k as int]);
            }
            sum = sum + d;
            k = k + 1;
        }
        proof {
            assert(self@.take(N as int) =~= self@);
            assert(other@.take(N as int) =~= other@);
        }
        sum
    }

    /// Parses a string of exactly N symbols from {'0', '1'} into a vector.
    /// Fails with `InvalidLength` when the byte count is not N, and with
    /// `InvalidValue` when the count is right but a symbol is not a binary
    /// digit.
    pub fn from_str(s: &str) -> (r: Result<Self, BitVecError>)
        ensures
            r is Ok <==> s.spec_bytes().len() == N && forall|k: int|
                0 <= k < N ==> bit_byte(#[trigger] s.spec_bytes()[k]),
            r matches Ok(v) ==> v@ == s.spec_bytes() && v.wf() && v.is_binary(),
            r == Err::<Self, BitVecError>(BitVecError::InvalidLength) <==> s.spec_bytes().len()
                != N,
            r == Err::<Self, BitVecError>(BitVecError::InvalidValue) <==> s.spec_bytes().len() == N
                && exists|k: int| 0 <= k < N && !bit_byte(#[trigger] s.spec_bytes()[k]),
    {
        let sb = s.as_bytes();
        bitvec_from_bytes(sb, 0, sb.len())
    }
}

/// Parses the byte range `s[lo..hi]` as a vector of N binary symbols, with
/// the same validation as `BitVec::from_str`.
fn bitvec_from_bytes<const N: usize>(s: &[u8], lo: usize, hi: usize) -> (r: Result<
    BitVec<N>,
    BitVecError,
>)
    requires
        lo <= hi <= s@.len(),
    ensures
        r is Ok <==> hi - lo == N && forall|k: int|
            lo <= k < hi ==> bit_byte(#[trigger] s@[k]),
        r matches Ok(v) ==> v@ == s@.subrange(lo as int, hi as int) && v.wf() && v.is_binary(),
        r == Err::<BitVec<N>, BitVecError>(BitVecError::InvalidLength) <==> hi - lo != N,
        r == Err::<BitVec<N>, BitVecError>(BitVecError::InvalidValue) <==> hi - lo == N
            && exists|k: int| lo <= k < hi && !bit_byte(#[trigger] s@[k]),
{
    if hi - lo != N {
        return Err(BitVecError::InvalidLength);
    }
    let mut v: Vec<u8> = Vec::new();
    let mut k: usize = 0;
    while k < N
        invariant
            k <= N,
            hi - lo == N,
            lo <= hi <= s@.len(),
            v@ =~= s@.subrange(lo as int, lo + k),
            forall|kk: int| lo <= kk < lo + k ==> bit_byte(#[trigger] s@[kk]),
        decreases N - k,
    {
        let x = s[lo + k];
        if x != 48 && x != 49 {
            return Err(BitVecError::InvalidValue);
        }
        v.push(x);
        k = k + 1;
    }
    Ok(BitVec { elems: v })
}

/// The six ASCII white-space code points, which surrounding trimming removes.
pub open spec fn is_space(x: u8) -> bool {
    x == 32 || x == 9 || x == 10 || x == 11 || x == 12 || x == 13
}

/// The byte sequence with all leading and trailing ASCII white space removed.
pub open spec fn trimmed(s: Seq<u8>) -> Seq<u8>
    decreases s.len(),
{
    if s.len() == 0 {
        s
    } else if is_space(s[0]) {
        trimmed(s.skip(1))
    } else if is_space(s.last()) {
        trimmed(s.drop_last())
    } else {
        s
    }
}

/// Finds the range of `s` that remains once leading and trailing ASCII white
/// space is removed.
#[verifier::loop_isolation(false)]
fn trim_range(s: &[u8]) -> (r: (usize, usize))
    ensures
        r.0 <= r.1 <= s@.len(),
        s@.subrange(r.0 as int, r.1 as int) == trimmed(s@),
{
    let n = s.len();
    proof {
        assert(s@.subrange(0, n as int) =~= s@);
    }
    let mut lo: usize = 0;
    while lo < n && is_space_byte(s[lo])
        invariant
            lo <= n,
            trimmed(s@) == trimmed(s@.subrange(lo as int, n as int)),
        decreases n - lo,
    {
        proof {
            let cur = s@.subrange(lo as int, n as int);
            assert(cur[0] == s@[lo as int]);
            assert(cur.skip(1) =~= s@.subrange(lo + 1, n as int));
        }
        lo = lo + 1;
    }
    let mut hi: usize = n;
    while hi > lo && is_space_byte(s[hi - 1])
        invariant
            lo <= hi <= n,
            trimmed(s@) == trimmed(s@.subrange(lo as int, hi as int)),
            lo < hi ==> !is_space(s@[lo as int]),
        decreases hi,
    {
        proof {
            let cur = s@.subrange(lo as int, hi as int);
            assert(cur[0] == s@[lo as int]);
            assert(cur.last() == s@[hi - 1]);
            assert(cur.drop_last() =~= s@.subrange(lo as int, hi - 1));
        }
        hi = hi - 1;
    }
    proof {
        let cur = s@.subrange(lo as int, hi as int);
        if cur.len() > 0 {
            assert(cur[0] == s@[lo as int]);
            assert(cur.last() == s@[hi - 1]);
        }
    }
    (lo, hi)
}

/// Whether the byte is one of the six ASCII white-space code points.
fn is_space_byte(x: u8) -> (r: bool)
    ensures
        r == is_space(x),
{
    x == 32 || x == 9 || x == 10 || x == 11 || x == 12 || x == 13
}

/// An input to `hamming_distance`: after trimming surrounding ASCII white
/// space, exactly eight symbols remain, each '0' or '1'.
pub open spec fn hamming_input_ok(s: Seq<u8>) -> bool {
    trimmed(s).len() == 8 && forall|k: int| 0 <= k < 8 ==> bit_byte(#[trigger] trimmed(s)[k])
}

/// Hamming distance between two strings of eight binary digits, ignoring
/// surrounding ASCII white space: the count of positions at which the two
/// trimmed strings differ. Both inputs must validate as eight-symbol binary
/// vectors; the caller checks this before the call.
pub fn hamming_distance(a: &str, b: &str) -> (r: usize)
    requires
        hamming_input_ok(a.spec_bytes()),
        hamming_input_ok(b.spec_bytes()),
    ensures
        r as nat == hamming_spec(trimmed(a.spec_bytes()), trimmed(b.spec_bytes())),
        r <= 8,
{
    let ab = a.as_bytes();
    let bb = b.as_bytes();
    let (alo, ahi) = trim_range(ab);
    let (blo, bhi) = trim_range(bb);
    proof {
        assert forall|k: int| alo <= k < ahi implies bit_byte(#[trigger] ab@[k]) by {
            assert(trimmed(ab@)[k - alo] == ab@[k]);
        }
        assert forall|k: int| blo <= k < bhi implies bit_byte(#[trigger] bb@[k]) by {
            assert(trimmed(bb@)[k - blo] == bb@[k]);
        }
    }
    let va: BitVec<8> = match bitvec_from_bytes(ab, alo, ahi) {
        Ok(v) => v,
        Err(_) => {
            return vstd::pervasive::unreached();
        },
    };
    let vb: BitVec<8> = match bitvec_from_bytes(bb, blo, bhi) {
        Ok(v) => v,
        Err(_) => {
            return vstd::pervasive::unreached();
        },
    };
    va.hamming_distance(&vb) as usize
}

} // verus!
