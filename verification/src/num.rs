//! Fixed-point scalars and the integer square root.
//!
//! Every scalar in this crate is a signed 64-bit integer holding a real value
//! scaled by `SCALE`: the raw value `65536` stands for `1.0`, one grid unit.
//! All arithmetic on these scalars is exact integer arithmetic, so every
//! contract below pins the result down to the last raw unit.

use vstd::prelude::*;

verus! {

/// Raw units per grid unit: a scalar `x` stands for the real number `x / SCALE`.
pub const SCALE: i64 = 65536;

/// The in-band "unknown distance" marker: the largest value a distance entry
/// may hold. Equal to `SAMPLE_MAX * SCALE`, so no local distance can exceed it.
pub const SENTINEL: i64 = 140737488355328;

/// Largest magnitude accepted for a level-set sample (2^31 raw units).
pub const SAMPLE_MAX: i64 = 2147483648;

/// Largest accepted grid spacing (2^31 raw units).
pub const SPACING_MAX: i64 = 2147483648;

/// Floor of `sqrt(SCALE * SCALE / 2)`: the scalar closest to `sqrt(1/2)` from below.
pub const SQRT_HALF: i64 = 46340;

/// Floor of `sqrt(2 * SCALE * SCALE)`: the scalar closest to `sqrt(2)` from below.
pub const SQRT_TWO: i64 = 92681;

/// `r` is the integer square root of `x`: the largest integer whose square
/// does not exceed `x`.
pub open spec fn is_isqrt(x: int, r: int) -> bool {
    &&& 0 <= r
    &&& r * r <= x
    &&& x < (r + 1) * (r + 1)
}

/// The integer square root of `x`, as a mathematical function.
pub closed spec fn isqrt_spec(x: int) -> int {
    choose|r: int| is_isqrt(x, r)
}

/// Every non-negative integer has an integer square root, and `isqrt_spec`
/// denotes it.
pub proof fn lemma_isqrt_exists(x: int)
    requires
        x >= 0,
    ensures
        is_isqrt(x, isqrt_spec(x)),
    decreases x,
{
    if x == 0 {
        assert(is_isqrt(0, 0));
    } else {
        lemma_isqrt_exists(x - 1);
        let r = isqrt_spec(x - 1);
        if x < (r + 1) * (r + 1) {
            assert(is_isqrt(x, r));
        } else {
            assert(x == (r + 1) * (r + 1));
            assert((r + 1) * (r + 1) < (r + 2) * (r + 2)) by (nonlinear_arith)
                requires r >= 0;
            assert(is_isqrt(x, r + 1));
        }
    }
    assert(exists|r: int| is_isqrt(x, r));
}

/// The integer square root is unique.
pub proof fn lemma_isqrt_unique(x: int, r: int)
    requires
        is_isqrt(x, r),
    ensures
        r == isqrt_spec(x),
{
    lemma_isqrt_exists(x);
    let s = isqrt_spec(x);
    if r < s {
        assert((r + 1) * (r + 1) <= s * s) by (nonlinear_arith)
            requires 0 <= r, r < s;
        assert(false);
    }
    if s < r {
        assert((s + 1) * (s + 1) <= r * r) by (nonlinear_arith)
            requires 0 <= s, s < r;
        assert(false);
    }
}

/// The integer square root is monotone.
pub proof fn lemma_isqrt_ordered(x: int, y: int)
    requires
        0 <= x <= y,
    ensures
        isqrt_spec(x) <= isqrt_spec(y),
{
    lemma_isqrt_exists(x);
    lemma_isqrt_exists(y);
    let r = isqrt_spec(x);
    let s = isqrt_spec(y);
    if s < r {
        assert((s + 1) * (s + 1) <= r * r) by (nonlinear_arith)
            requires 0 <= s, s < r;
        assert(false);
    }
}

/// Integer square root by bisection.
pub fn isqrt(x: u128) -> (r: u64)
    requires
        (x as int) < 0x40000000000000000000000000000000,
    ensures
        is_isqrt(x as int, r as int),
        r as int == isqrt_spec(x as int),
{
    let mut lo: u128 = 0;
    let mut hi: u128 = 0x8000000000000000;
    proof {
        assert((0x8000000000000000 as int) * (0x8000000000000000 as int)
            == 0x40000000000000000000000000000000) by (nonlinear_arith);
    }
    while hi - lo > 1
        invariant
            lo < hi,
            hi <= 0x8000000000000000,
            (lo as int) * (lo as int) <= x as int,
            (x as int) < (hi as int) * (hi as int),
        decreases hi - lo,
    {
        let mid = lo + (hi - lo) / 2;
        proof {
            assert((mid as int) * (mid as int) < 0x40000000000000000000000000000000)
                by (nonlinear_arith)
                requires (mid as int) < 0x8000000000000000;
        }
        let sq = mid * mid;
        if sq <= x {
            lo = mid;
        } else {
            hi = mid;
        }
    }
    proof {
        assert(hi == lo + 1);
        assert(is_isqrt(x as int, lo as int));
        lemma_isqrt_unique(x as int, lo as int);
        assert((lo as int) < 0x8000000000000000);
    }
    lo as u64
}

/// The integer square root of `x` rounded up: the smallest integer whose
/// square is at least `x`.
pub open spec fn isqrt_up_spec(x: int) -> int {
    if isqrt_spec(x) * isqrt_spec(x) == x {
        isqrt_spec(x)
    } else {
        isqrt_spec(x) + 1
    }
}

/// The rounded-up square root lies between the rounded-down one and the
/// next integer, and its square covers `x`.
pub proof fn lemma_isqrt_up(x: int)
    requires
        x >= 0,
    ensures
        isqrt_spec(x) <= isqrt_up_spec(x) <= isqrt_spec(x) + 1,
        x <= isqrt_up_spec(x) * isqrt_up_spec(x),
        1 <= x ==> 1 <= isqrt_up_spec(x),
{
    lemma_isqrt_exists(x);
    let r = isqrt_spec(x);
    if r * r != x {
        assert(x <= (r + 1) * (r + 1));
    }
    if 1 <= x && r == 0 {
        assert(r * r == 0) by (nonlinear_arith)
            requires r == 0;
        assert(isqrt_up_spec(x) == 1);
    }
}

/// Integer square root rounded up.
pub fn isqrt_up(x: u128) -> (r: u64)
    requires
        (x as int) < 0x40000000000000000000000000000000,
    ensures
        r as int == isqrt_up_spec(x as int),
{
    let f = isqrt(x);
    proof {
        lemma_isqrt_up(x as int);
        assert((f as int) * (f as int) < 0x40000000000000000000000000000000)
            by (nonlinear_arith)
            requires 0 <= f as int, (f as int) * (f as int) <= x as int,
                (x as int) < 0x40000000000000000000000000000000;
    }
    proof {
        assert((f as int) < 0x8000000000000000) by {
            if (f as int) >= 0x8000000000000000 {
                assert((f as int) * (f as int)
                    >= 0x8000000000000000 * 0x8000000000000000) by (nonlinear_arith)
                    requires (f as int) >= 0x8000000000000000;
            }
        }
    }
    let sq = (f as u128) * (f as u128);
    if sq == x {
        f
    } else {
        f + 1
    }
}

/// The named square-root scalars are exactly the integer square roots their
/// names promise: `SQRT_HALF` of half a square unit, `SQRT_TWO` of two.
pub proof fn lemma_root_constants()
    ensures
        SQRT_HALF as int == isqrt_spec((SCALE as int) * (SCALE as int) / 2),
        SQRT_TWO as int == isqrt_spec(2 * (SCALE as int) * (SCALE as int)),
{
    assert((SCALE as int) * (SCALE as int) / 2 == 2147483648);
    assert(is_isqrt(2147483648, 46340));
    lemma_isqrt_unique(2147483648, 46340);
    assert(is_isqrt(8589934592, 92681));
    lemma_isqrt_unique(8589934592, 92681);
}

/// Exact `(a * b) / c` on non-negative scalars, computed without overflow.
pub fn mul_div(a: i64, b: i64, c: i64) -> (r: i64)
    requires
        0 <= a,
        0 <= b,
        0 < c,
        (a as int * b as int) / (c as int) <= i64::MAX as int,
    ensures
        r as int == (a as int * b as int) / (c as int),
        0 <= r,
    {
    proof {
        assert(a as int * b as int <= 0x7fffffffffffffff * 0x7fffffffffffffff)
            by (nonlinear_arith)
            requires 0 <= a as int <= 0x7fffffffffffffff, 0 <= b as int <= 0x7fffffffffffffff;
    }
    let p: u128 = (a as u128) * (b as u128);
    proof {
        assert(p as int == a as int * b as int);
        vstd::arithmetic::div_mod::lemma_div_pos_is_pos(p as int, c as int);
    }
    let q: u128 = p / (c as u128);
    q as i64
}

/// Sum of the entries of a sequence, used as the termination measure of the
/// sweep solver: a sweep that changes anything strictly lowers this sum.
pub open spec fn seq_sum(s: Seq<i64>) -> int
    decreases s.len(),
{
    if s.len() == 0 {
        0
    } else {
        seq_sum(s.drop_last()) + s.last()
    }
}

/// A sequence of non-negative entries has a non-negative sum.
pub proof fn lemma_seq_sum_nonneg(s: Seq<i64>)
    requires
        forall|q: int| 0 <= q < s.len() ==> 0 <= #[trigger] s[q],
    ensures
        0 <= seq_sum(s),
    decreases s.len(),
{
    if s.len() > 0 {
        lemma_seq_sum_nonneg(s.drop_last());
    }
}

/// Replacing one entry shifts the sum by exactly the difference.
pub proof fn lemma_seq_sum_update(s: Seq<i64>, i: int, v: i64)
    requires
        0 <= i < s.len(),
    ensures
        seq_sum(s.update(i, v)) == seq_sum(s) + v - s[i],
    decreases s.len(),
{
    let t = s.update(i, v);
    if i == s.len() - 1 {
        assert(t.drop_last() =~= s.drop_last());
    } else {
        assert(t.drop_last() =~= s.drop_last().update(i, v));
        lemma_seq_sum_update(s.drop_last(), i, v);
    }
}

} // verus!
