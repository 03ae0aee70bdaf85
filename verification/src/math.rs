//! Fixed-point arithmetic for similarity scores.
//!
//! Embedding components are `i32` values and scores are `i64` values, both
//! understood as fixed-point numbers scaled by [`SCALE`]: the score `SCALE`
//! stands for a similarity of 1.0. All arithmetic is exact integer
//! arithmetic; [`isqrt`] provides the integer square root used by norms.

use vstd::prelude::*;
use vstd::arithmetic::div_mod::{lemma_div_is_ordered, lemma_div_multiples_vanish};
use vstd::arithmetic::mul::lemma_mul_inequality;

verus! {

/// Number of fixed-point units per 1.0 of similarity.
pub const SCALE: i64 = 1000000;

/// The dot product of two component sequences, as a mathematical integer.
pub open spec fn spec_dot(a: Seq<i32>, b: Seq<i32>) -> int
    decreases a.len(),
{
    if a.len() == 0 || b.len() == 0 {
        0
    } else {
        spec_dot(a.drop_last(), b.drop_last()) + (a.last() as int) * (b.last() as int)
    }
}

/// Each product of two `i32` components lies within +/- 2^62, so a dot
/// product of `n` components lies within +/- n * 2^62.
pub proof fn lemma_dot_bound(a: Seq<i32>, b: Seq<i32>)
    requires
        a.len() == b.len(),
    ensures
        -((a.len() as int) * 0x4000000000000000) <= spec_dot(a, b),
        spec_dot(a, b) <= (a.len() as int) * 0x4000000000000000,
    decreases a.len(),
{
    if a.len() != 0 {
        lemma_dot_bound(a.drop_last(), b.drop_last());
        let x = a.last() as int;
        let y = b.last() as int;
        assert(-0x4000000000000000 <= x * y <= 0x4000000000000000) by (nonlinear_arith)
            requires
                -0x80000000 <= x <= 0x7fffffff,
                -0x80000000 <= y <= 0x7fffffff,
        ;
    }
}

/// A dot product of a sequence with itself is non-negative.
pub proof fn lemma_dot_self_nonneg(a: Seq<i32>)
    ensures
        spec_dot(a, a) >= 0,
    decreases a.len(),
{
    if a.len() != 0 {
        lemma_dot_self_nonneg(a.drop_last());
        let x = a.last() as int;
        assert(x * x >= 0) by (nonlinear_arith);
    }
}

/// `r` is the integer square root of `n`.
pub open spec fn is_isqrt(n: int, r: int) -> bool {
    r >= 0 && r * r <= n && n < (r + 1) * (r + 1)
}

/// Every non-negative integer has an integer square root.
pub proof fn lemma_isqrt_exists(n: nat)
    ensures
        exists|r: int| is_isqrt(n as int, r),
    decreases n,
{
    if n == 0 {
        assert(is_isqrt(0, 0));
    } else {
        lemma_isqrt_exists((n - 1) as nat);
        let r = choose|r: int| #[trigger] is_isqrt(n - 1, r);
        if (r + 1) * (r + 1) <= n {
            assert(is_isqrt(n as int, r + 1)) by (nonlinear_arith)
                requires
                    is_isqrt(n - 1, r),
                    (r + 1) * (r + 1) <= n,
            ;
        } else {
            assert(is_isqrt(n as int, r));
        }
    }
}

/// The integer square root is unique.
pub proof fn lemma_isqrt_unique(n: int, r1: int, r2: int)
    requires
        is_isqrt(n, r1),
        is_isqrt(n, r2),
    ensures
        r1 == r2,
{
    assert(r1 == r2) by (nonlinear_arith)
        requires
            is_isqrt(n, r1),
            is_isqrt(n, r2),
    ;
}

/// The integer square root of `n`, or an arbitrary value for negative `n`.
pub open spec fn spec_isqrt(n: int) -> int {
    choose|r: int| #[trigger] is_isqrt(n, r)
}

/// [`spec_isqrt`] of a non-negative integer really is its square root.
pub proof fn lemma_isqrt_is_isqrt(n: int)
    requires
        n >= 0,
    ensures
        is_isqrt(n, spec_isqrt(n)),
{
    lemma_isqrt_exists(n as nat);
}

/// The integer square root of a positive integer is positive.
pub proof fn lemma_isqrt_of_pos(n: int, r: int)
    requires
        is_isqrt(n, r),
        n >= 1,
    ensures
        r >= 1,
{
    assert(r >= 1) by (nonlinear_arith)
        requires
            is_isqrt(n, r),
            n >= 1,
    ;
}

/// The integer square root, by binary search.
pub fn isqrt(n: u128) -> (r: u64)
    requires
        n < 0x40000000000000000000000000000000u128,
    ensures
        is_isqrt(n as int, r as int),
        r == spec_isqrt(n as int),
{
    let mut lo: u128 = 0;
    let mut hi: u128 = 0x8000000000000000u128;
    assert(hi * hi > n) by (nonlinear_arith)
        requires
            hi == 0x8000000000000000u128,
            n < 0x40000000000000000000000000000000u128,
    ;
    while lo + 1 < hi
        invariant
            lo < hi <= 0x8000000000000000u128,
            lo * lo <= n,
            hi * hi > n,
        decreases hi - lo,
    {
        let mid: u128 = lo + (hi - lo) / 2;
        assert(mid * mid <= u128::MAX) by (nonlinear_arith)
            requires
                mid <= 0x8000000000000000u128,
        ;
        if mid * mid <= n {
            lo = mid;
        } else {
            hi = mid;
        }
    }
    assert(is_isqrt(n as int, lo as int));
    proof {
        lemma_isqrt_is_isqrt(n as int);
        lemma_isqrt_unique(n as int, lo as int, spec_isqrt(n as int));
    }
    lo as u64
}

/// The dot product of two equal-length component slices.
///
/// The accumulator stays within +/- len * 2^62, so an `i128` never overflows.
pub fn dot(a: &[i32], b: &[i32]) -> (r: i128)
    requires
        a@.len() == b@.len(),
    ensures
        r == spec_dot(a@, b@),
{
    let l = a.len();
    let mut r: i128 = 0;
    let mut i: usize = 0;
    while i < l
        invariant
            l == a@.len() == b@.len(),
            0 <= i <= l,
            r == spec_dot(a@.take(i as int), b@.take(i as int)),
            -((i as int) * 0x4000000000000000) <= r <= (i as int) * 0x4000000000000000,
        decreases l - i,
    {
        let x = a[i];
        let y = b[i];
        assert(-0x4000000000000000 <= (x as int) * (y as int) <= 0x4000000000000000)
            by (nonlinear_arith)
            requires
                -0x80000000 <= x as int <= 0x7fffffff,
                -0x80000000 <= y as int <= 0x7fffffff,
        ;
        let term: i128 = (x as i128) * (y as i128);
        r = r + term;
        proof {
            let ai = a@.take(i + 1);
            let bi = b@.take(i + 1);
            assert(ai.drop_last() =~= a@.take(i as int));
            assert(bi.drop_last() =~= b@.take(i as int));
            assert(ai.last() == x && bi.last() == y);
        }
        i = i + 1;
    }
    proof {
        assert(a@.take(l as int) =~= a@);
        assert(b@.take(l as int) =~= b@);
    }
    r
}

/// `floor(q * SCALE / p)` for `q <= p`, computed by binary long
/// multiplication-division: the multiplier's bits are folded in one
/// doubling at a time, reducing modulo `p` at each step, so that no
/// intermediate exceeds 128 bits even though `q * SCALE` itself can.
pub fn scale_div(q: u128, p: u128) -> (r: u128)
    requires
        1 <= p <= 0x40000000000000000000000000000000u128,
        q <= p,
    ensures
        r as int == (q as int) * (SCALE as int) / (p as int),
        r <= 1000000,
{
    let mut a: u128 = 0;
    let mut x: u128 = 0;
    let mut i: u32 = 0;
    proof {
        assert(1000000u32 >> 20u32 == 0) by (bit_vector);
        assert((0int) * (q as int) == 0) by (nonlinear_arith);
    }
    while i < 20
        invariant
            0 <= i <= 20,
            1 <= p <= 0x40000000000000000000000000000000u128,
            q <= p,
            x < p,
            a <= 1000000,
            (a as int) * (p as int) + x == ((1000000u32 >> (20 - i) as u32) as int) * (q as int),
        decreases 20 - i,
    {
        let ghost pref0 = (1000000u32 >> (20 - i) as u32) as int;
        let bit: u32 = (1000000u32 >> (19 - i) as u32) & 1;
        let ghost pref1 = (1000000u32 >> (20 - (i + 1)) as u32) as int;
        proof {
            let j: u32 = (19 - i) as u32;
            assert((1000000u32 >> j) == 2 * (1000000u32 >> (j + 1) as u32) + ((1000000u32 >> j)
                & 1) && (1000000u32 >> j) <= 1000000u32 && ((1000000u32 >> j) & 1) <= 1)
                by (bit_vector)
                requires
                    j < 20u32,
            ;
            assert(pref1 == 2 * pref0 + bit);
        }
        let ghost a0 = a;
        let ghost x0 = x;
        let add: u128 = if bit == 1 {
            q
        } else {
            0
        };
        let mut x2: u128 = 2 * x + add;
        let mut a2: u128 = 2 * a;
        if x2 >= p {
            x2 = x2 - p;
            a2 = a2 + 1;
        }
        if x2 >= p {
            x2 = x2 - p;
            a2 = a2 + 1;
        }
        proof {
            let d = a2 - 2 * (a0 as int);
            assert(0 <= d <= 2);
            assert((bit as int) * (q as int) == add as int) by (nonlinear_arith)
                requires
                    bit == 0 || bit == 1,
                    add == (if bit == 1 {
                        q
                    } else {
                        0u128
                    }),
            ;
            assert(x2 == 2 * (x0 as int) + (add as int) - d * (p as int));
            assert((2 * (a0 as int) + d) * (p as int) == 2 * ((a0 as int) * (p as int)) + d * (
            p as int)) by (nonlinear_arith);
            assert((2 * pref0 + bit) * (q as int) == 2 * (pref0 * (q as int)) + (bit as int) * (
            q as int)) by (nonlinear_arith);
            assert((a2 as int) * (p as int) + x2 == pref1 * (q as int));
            // the accumulated quotient stays within the multiplier prefix
            assert(pref1 * (q as int) <= pref1 * (p as int)) by (nonlinear_arith)
                requires
                    q <= p,
                    pref1 >= 0,
            ;
            assert((a2 as int) * (p as int) <= pref1 * (p as int));
            assert(a2 <= pref1) by (nonlinear_arith)
                requires
                    (a2 as int) * (p as int) <= pref1 * (p as int),
                    p >= 1,
            ;
            assert(pref1 <= 1000000);
        }
        a = a2;
        x = x2;
        i = i + 1;
    }
    proof {
        assert(1000000u32 >> 0u32 == 1000000u32) by (bit_vector);
        assert((a as int) * (p as int) + x == 1000000 * (q as int));
        assert(1000000 * (q as int) == (q as int) * (SCALE as int)) by (nonlinear_arith);
        vstd::arithmetic::div_mod::lemma_fundamental_div_mod_converse(
            (q as int) * (SCALE as int),
            p as int,
            a as int,
            x as int,
        );
    }
    a
}

/// The dot product is symmetric in its arguments.
pub proof fn lemma_dot_symmetric(a: Seq<i32>, b: Seq<i32>)
    requires
        a.len() == b.len(),
    ensures
        spec_dot(a, b) == spec_dot(b, a),
    decreases a.len(),
{
    if a.len() != 0 {
        lemma_dot_symmetric(a.drop_last(), b.drop_last());
        let x = a.last() as int;
        let y = b.last() as int;
        assert(x * y == y * x) by (nonlinear_arith);
    }
}

/// The fixed-point cosine similarity of two component sequences.
///
/// Mirrors [`cosine_similarity`](crate::vector::cosine_similarity) exactly:
/// 0 when the lengths differ or either operand has zero norm; otherwise the
/// magnitude of the dot product, clamped to the product of the two norms,
/// is scaled by [`SCALE`] in a single truncating division by that product,
/// and the sign of the dot product is restored. The single division makes
/// the operation symmetric in its arguments (see
/// [`lemma_cosine_symmetric`]); the result always lies in [-SCALE, SCALE].
pub open spec fn spec_cosine(a: Seq<i32>, b: Seq<i32>) -> int {
    if a.len() != b.len() {
        0
    } else {
        let d = spec_dot(a, b);
        let na2 = spec_dot(a, a);
        let nb2 = spec_dot(b, b);
        if na2 == 0 || nb2 == 0 {
            0
        } else {
            let p = spec_isqrt(na2) * spec_isqrt(nb2);
            let m = if d < 0 {
                -d
            } else {
                d
            };
            let q = if m > p {
                p
            } else {
                m
            };
            let s = q * (SCALE as int) / p;
            if d < 0 {
                -s
            } else {
                s
            }
        }
    }
}

/// Cosine similarity is symmetric in its arguments.
pub proof fn lemma_cosine_symmetric(a: Seq<i32>, b: Seq<i32>)
    ensures
        spec_cosine(a, b) == spec_cosine(b, a),
{
    if a.len() == b.len() {
        lemma_dot_symmetric(a, b);
        let ra = spec_isqrt(spec_dot(a, a));
        let rb = spec_isqrt(spec_dot(b, b));
        assert(ra * rb == rb * ra) by (nonlinear_arith);
    }
}

/// A similarity score never exceeds 1.0 in magnitude:
/// `spec_cosine` always lies in [-SCALE, SCALE].
pub proof fn lemma_cosine_bounds(a: Seq<i32>, b: Seq<i32>)
    ensures
        -SCALE <= spec_cosine(a, b) <= SCALE,
{
    if a.len() == b.len() {
        let d = spec_dot(a, b);
        let na2 = spec_dot(a, a);
        let nb2 = spec_dot(b, b);
        if na2 != 0 && nb2 != 0 {
            lemma_dot_self_nonneg(a);
            lemma_dot_self_nonneg(b);
            lemma_isqrt_is_isqrt(na2);
            lemma_isqrt_is_isqrt(nb2);
            let ra = spec_isqrt(na2);
            let rb = spec_isqrt(nb2);
            lemma_isqrt_of_pos(na2, ra);
            lemma_isqrt_of_pos(nb2, rb);
            let p = ra * rb;
            assert(p >= 1) by (nonlinear_arith)
                requires
                    ra >= 1,
                    rb >= 1,
                    p == ra * rb,
            ;
            let m = if d < 0 {
                -d
            } else {
                d
            };
            let q = if m > p {
                p
            } else {
                m
            };
            lemma_scaled_ratio_bounds(q, p);
        }
    }
}

/// Division of a non-negative integer by a positive one is non-negative.
pub proof fn lemma_div_pos(m: int, d: int)
    requires
        m >= 0,
        d >= 1,
    ensures
        m / d >= 0,
{
    assert(m / d >= 0) by (nonlinear_arith)
        requires
            m >= 0,
            d >= 1,
    ;
}

/// For 0 <= q <= rb with rb >= 1, the scaled ratio q * SCALE / rb lies in
/// [0, SCALE].
pub proof fn lemma_scaled_ratio_bounds(q: int, rb: int)
    requires
        0 <= q <= rb,
        rb >= 1,
    ensures
        0 <= q * (SCALE as int) / rb <= SCALE,
{
    let s = SCALE as int;
    lemma_mul_inequality(q, rb, s);
    lemma_div_is_ordered(q * s, rb * s, rb);
    lemma_div_multiples_vanish(s, rb);
    assert(q * s >= 0) by (nonlinear_arith)
        requires
            q >= 0,
            s > 0,
    ;
    lemma_div_pos(q * s, rb);
}

/// The similarity of a non-zero vector with itself is exactly 1.0
/// (the score [`SCALE`]).
pub proof fn lemma_cosine_self(a: Seq<i32>)
    requires
        spec_dot(a, a) != 0,
    ensures
        spec_cosine(a, a) == SCALE,
{
    let n = spec_dot(a, a);
    lemma_dot_self_nonneg(a);
    lemma_isqrt_is_isqrt(n);
    let r = spec_isqrt(n);
    lemma_isqrt_of_pos(n, r);
    let p = r * r;
    // the clamped magnitude is exactly the norm product: r * r <= n
    assert(p >= 1 && p <= n) by (nonlinear_arith)
        requires
            r >= 1,
            r * r <= n,
            p == r * r,
    ;
    let q = if n > p {
        p
    } else {
        n
    };
    assert(q == p);
    lemma_div_multiples_vanish(SCALE as int, p);
    assert(spec_cosine(a, a) == p * (SCALE as int) / p);
    assert(p * (SCALE as int) == (SCALE as int) * p);
}

/// `b` is the component-wise negation of `a`.
pub open spec fn is_negation(a: Seq<i32>, b: Seq<i32>) -> bool {
    &&& a.len() == b.len()
    &&& forall|i: int| 0 <= i < a.len() ==> (b[i] as int) == -(a[i] as int)
}

/// Dot products under component-wise negation of one operand.
pub proof fn lemma_dot_negation(a: Seq<i32>, b: Seq<i32>)
    requires
        is_negation(a, b),
    ensures
        spec_dot(a, b) == -spec_dot(a, a),
        spec_dot(b, b) == spec_dot(a, a),
    decreases a.len(),
{
    if a.len() != 0 {
        assert(is_negation(a.drop_last(), b.drop_last()));
        lemma_dot_negation(a.drop_last(), b.drop_last());
        let x = a.last() as int;
        let y = b.last() as int;
        assert(y == -x);
        assert(x * y == -(x * x) && y * y == x * x) by (nonlinear_arith)
            requires
                y == -x,
        ;
    }
}

/// The similarity of a non-zero vector with its negation is exactly -1.0
/// (the score -[`SCALE`]).
pub proof fn lemma_cosine_opposite(a: Seq<i32>, b: Seq<i32>)
    requires
        is_negation(a, b),
        spec_dot(a, a) != 0,
    ensures
        spec_cosine(a, b) == -SCALE,
{
    let n = spec_dot(a, a);
    lemma_dot_negation(a, b);
    lemma_dot_self_nonneg(a);
    lemma_isqrt_is_isqrt(n);
    let r = spec_isqrt(n);
    lemma_isqrt_of_pos(n, r);
    let p = r * r;
    assert(p >= 1 && p <= n) by (nonlinear_arith)
        requires
            r >= 1,
            r * r <= n,
            p == r * r,
    ;
    lemma_div_multiples_vanish(SCALE as int, p);
    assert(p * (SCALE as int) == (SCALE as int) * p);
}

/// The similarity of a zero vector with anything is 0.
pub proof fn lemma_cosine_zero(a: Seq<i32>, b: Seq<i32>)
    requires
        spec_dot(a, a) == 0 || spec_dot(b, b) == 0,
    ensures
        spec_cosine(a, b) == 0,
{
}

} // verus!
