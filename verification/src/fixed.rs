//! Exact integer helpers for the fixed-point scalars: truncating division,
//! fixed-point multiplication, and an integer square root, together with the
//! bound lemmas the geometry code uses to rule out overflow.

use vstd::prelude::*;

verus! {

/// Truncating division (rounds toward zero), defined for a positive divisor.
pub open spec fn divt(p: int, q: int) -> int
    recommends
        q > 0,
{
    if p >= 0 {
        p / q
    } else {
        -((-p) / q)
    }
}

/// Fixed-point product: the mathematical product scaled back down by
/// `SCALE`, rounding toward zero.
pub open spec fn fxm(a: int, b: int) -> int {
    divt(a * b, crate::SCALE as int)
}

/// `r` is the integer square root of `n`: the largest integer whose square
/// does not exceed `n`.
pub open spec fn is_sqrt(n: int, r: int) -> bool {
    &&& 0 <= r
    &&& r * r <= n
    &&& n < (r + 1) * (r + 1)
}

/// The integer square root as a spec-level function; well defined because
/// `is_sqrt` pins a unique root (see `lemma_sqrt_unique`).
pub open spec fn sqrt_floor(n: int) -> int {
    choose|r: int| is_sqrt(n, r)
}

/// Two integer square roots of the same number are equal.
pub proof fn lemma_sqrt_unique(n: int, r1: int, r2: int)
    requires
        is_sqrt(n, r1),
        is_sqrt(n, r2),
    ensures
        r1 == r2,
{
    assert(r1 == r2) by (nonlinear_arith)
        requires
            0 <= r1,
            0 <= r2,
            r1 * r1 <= n,
            n < (r1 + 1) * (r1 + 1),
            r2 * r2 <= n,
            n < (r2 + 1) * (r2 + 1),
    ;
}

/// Whenever some root witnesses `is_sqrt(n, r)`, `sqrt_floor(n)` equals it.
pub proof fn lemma_sqrt_floor_is(n: int, r: int)
    requires
        is_sqrt(n, r),
    ensures
        sqrt_floor(n) == r,
{
    let rr = choose|x: int| is_sqrt(n, x);
    lemma_sqrt_unique(n, rr, r);
}

/// Every nonnegative integer has an integer square root, so
/// `sqrt_floor` is well defined on it.
pub proof fn lemma_sqrt_exists(n: int)
    requires
        0 <= n,
    ensures
        is_sqrt(n, sqrt_floor(n)),
    decreases n,
{
    if n == 0 {
        assert(is_sqrt(0, 0));
    } else {
        lemma_sqrt_exists(n - 1);
        let r = sqrt_floor(n - 1);
        if (r + 1) * (r + 1) <= n {
            assert(is_sqrt(n, r + 1)) by (nonlinear_arith)
                requires
                    0 <= r,
                    n - 1 < (r + 1) * (r + 1) <= n,
            ;
        } else {
            assert(is_sqrt(n, r));
        }
    }
    assert(exists|r: int| is_sqrt(n, r));
}

/// A product is bounded by the product of the bounds.
pub proof fn lemma_mul_bound(a: int, b: int, aa: int, bb: int)
    requires
        -aa <= a <= aa,
        -bb <= b <= bb,
        0 <= aa,
        0 <= bb,
    ensures
        -(aa * bb) <= a * b <= aa * bb,
{
    assert(-(aa * bb) <= a * b <= aa * bb) by (nonlinear_arith)
        requires
            -aa <= a <= aa,
            -bb <= b <= bb,
            0 <= aa,
            0 <= bb,
    ;
}

/// Truncating division shrinks the magnitude: a bound on the numerator
/// divides through.
pub proof fn lemma_divt_bound(p: int, q: int, pp: int)
    requires
        -pp <= p <= pp,
        0 < q,
        0 <= pp,
    ensures
        -(pp / q) <= divt(p, q) <= pp / q,
{
    if p >= 0 {
        vstd::arithmetic::div_mod::lemma_div_is_ordered(p, pp, q);
        vstd::arithmetic::div_mod::lemma_div_pos_is_pos(p, q);
        vstd::arithmetic::div_mod::lemma_div_pos_is_pos(pp, q);
    } else {
        vstd::arithmetic::div_mod::lemma_div_is_ordered(-p, pp, q);
        vstd::arithmetic::div_mod::lemma_div_pos_is_pos(-p, q);
        vstd::arithmetic::div_mod::lemma_div_pos_is_pos(pp, q);
    }
}

/// Truncating division never grows the magnitude of the numerator.
pub proof fn lemma_divt_le_num(p: int, q: int, pp: int)
    requires
        -pp <= p <= pp,
        1 <= q,
        0 <= pp,
    ensures
        -pp <= divt(p, q) <= pp,
{
    if p >= 0 {
        vstd::arithmetic::div_mod::lemma_div_basics_5(p, q);
        vstd::arithmetic::div_mod::lemma_div_pos_is_pos(p, q);
    } else {
        vstd::arithmetic::div_mod::lemma_div_basics_5(-p, q);
        vstd::arithmetic::div_mod::lemma_div_pos_is_pos(-p, q);
    }
}

/// Truncating division, rounding toward zero; exact over `divt`.
pub fn div_trunc(p: i128, q: i128) -> (r: i128)
    requires
        0 < q,
        -0x4000_0000_0000_0000_0000_0000_0000_0000 <= p
            <= 0x4000_0000_0000_0000_0000_0000_0000_0000,
    ensures
        r == divt(p as int, q as int),
{
    if p >= 0 {
        (((p as u128) / (q as u128)) as i128)
    } else {
        let m: i128 = ((((-p) as u128) / (q as u128)) as i128);
        -m
    }
}

/// Fixed-point multiply; exact over `fxm`.
pub fn fxmul(a: i128, b: i128) -> (r: i128)
    requires
        -0x4000_0000_0000_0000 <= a <= 0x4000_0000_0000_0000,
        -0x4000_0000_0000_0000 <= b <= 0x4000_0000_0000_0000,
    ensures
        r == fxm(a as int, b as int),
{
    proof {
        lemma_mul_bound(
            a as int,
            b as int,
            0x4000_0000_0000_0000,
            0x4000_0000_0000_0000,
        );
    }
    let p: i128 = a * b;
    div_trunc(p, crate::SCALE)
}

/// Integer square root by binary search: the result `r` is the unique
/// integer with `r * r <= n < (r + 1) * (r + 1)`.
pub fn isqrt(n: i128) -> (r: i128)
    requires
        0 <= n < 0x4000_0000_0000_0000_0000_0000_0000_0000,
    ensures
        is_sqrt(n as int, r as int),
        r == sqrt_floor(n as int),
        0 <= r <= 0x8000_0000_0000_0000,
{
    let mut lo: i128 = 0;
    let mut hi: i128 = 0x7FFF_FFFF_FFFF_FFFF;
    proof {
        assert((0x7FFF_FFFF_FFFF_FFFFi128 + 1) * (0x7FFF_FFFF_FFFF_FFFFi128 + 1)
            == 0x4000_0000_0000_0000_0000_0000_0000_0000);
    }
    while lo < hi
        invariant
            0 <= lo <= hi <= 0x7FFF_FFFF_FFFF_FFFF,
            lo * lo <= n,
            n < (hi + 1) * (hi + 1),
        decreases hi - lo,
    {
        let mid: i128 = lo + (hi - lo + 1) / 2;
        assert(lo < mid <= hi);
        proof {
            lemma_mul_bound(mid as int, mid as int, 0x7FFF_FFFF_FFFF_FFFF, 0x7FFF_FFFF_FFFF_FFFF);
            assert(0x7FFF_FFFF_FFFF_FFFFi128 * 0x7FFF_FFFF_FFFF_FFFFi128
                < 0x4000_0000_0000_0000_0000_0000_0000_0000);
        }
        let sq: i128 = mid * mid;
        if sq <= n {
            lo = mid;
        } else {
            hi = mid - 1;
        }
    }
    proof {
        lemma_sqrt_floor_is(n as int, lo as int);
    }
    lo
}

} // verus!
