//! Fixed-point scalars.
//!
//! Every length, time, parameter and colour channel of the renderer is an `i64`
//! holding a multiple of `1 / ONE`. Vector components saturate at `±LIM`, which
//! keeps every product of two components far inside `i128`.
use vstd::prelude::*;

verus! {

/// The fixed-point unit: the raw value that stands for `1.0`.
pub const ONE: i64 = 65536;

/// Saturation bound of a vector component (1024 units). A scene is meant to
/// keep its surfaces, boxes included, inside this bound (`Aabb::unclipped`).
pub const LIM: i64 = 67108864;

/// Saturation bound of a scalar (2^24 units).
pub const SMAX: i64 = 1099511627776;

/// Bound on the magnitude of an `i128` handed to the division helpers.
pub const BIG: i128 = 0x7fff_ffff_ffff_ffff_ffff_ffff_ffff_ffff;

/// `v` held to `[-LIM, LIM]`.
pub open spec fn sat(v: int) -> int {
    if v > LIM {
        LIM as int
    } else if v < -LIM {
        -LIM
    } else {
        v
    }
}

/// `v` held to `[-SMAX, SMAX]`.
pub open spec fn ssat(v: int) -> int {
    if v > SMAX {
        SMAX as int
    } else if v < -SMAX {
        -SMAX
    } else {
        v
    }
}

/// Floor of `a / b`, for either sign of a non-zero `b`.
pub open spec fn fdiv(a: int, b: int) -> int {
    if b > 0 {
        a / b
    } else {
        (-a) / (-b)
    }
}

/// Fixed-point product of two raw values, rounded down.
pub open spec fn fmul(a: int, b: int) -> int {
    (a * b) / (ONE as int)
}

/// Fixed-point quotient of two raw values, rounded down.
pub open spec fn fquot(a: int, b: int) -> int {
    fdiv(a * ONE, b)
}

pub open spec fn is_isqrt(n: int, r: int) -> bool {
    0 <= r && r * r <= n < (r + 1) * (r + 1)
}

pub proof fn lemma_mul_bounded(p: int, w: int, bp: int, bw: int)
    requires
        -bp <= p <= bp,
        -bw <= w <= bw,
    ensures
        -(bp * bw) <= p * w <= bp * bw,
{
    assert(-(bp * bw) <= p * w <= bp * bw) by (nonlinear_arith)
        requires
            -bp <= p <= bp,
            -bw <= w <= bw,
    ;
}

/// Floor division by a positive divisor does not grow a magnitude.
pub proof fn lemma_div_bounded(x: int, d: int, b: int)
    requires
        -b <= x <= b,
        d >= 1,
    ensures
        -b <= x / d <= b,
{
    vstd::arithmetic::div_mod::lemma_fundamental_div_mod(x, d);
    let q = x / d;
    let r = x % d;
    assert(-b <= q <= b) by (nonlinear_arith)
        requires
            x == d * q + r,
            0 <= r < d,
            d >= 1,
            -b <= x <= b,
    ;
}

/// Every non-negative integer has an integer square root.
pub proof fn isqrt_witness(n: int) -> (r: int)
    requires
        n >= 0,
    ensures
        is_isqrt(n, r),
    decreases n,
{
    if n == 0 {
        assert(is_isqrt(0, 0)) by (nonlinear_arith);
        0
    } else {
        let p = isqrt_witness(n - 1);
        assert(p * p <= n);
        if (p + 1) * (p + 1) <= n {
            assert((p + 1) * (p + 1) == n) by (nonlinear_arith)
                requires
                    (p + 1) * (p + 1) <= n,
                    n - 1 < (p + 1) * (p + 1),
            ;
            assert(n < (p + 2) * (p + 2)) by (nonlinear_arith)
                requires
                    (p + 1) * (p + 1) == n,
                    p >= 0,
            ;
            assert(is_isqrt(n, p + 1));
            p + 1
        } else {
            assert(is_isqrt(n, p));
            p
        }
    }
}

/// `v` held to `[-LIM, LIM]`.
pub fn saturate(v: i128) -> (r: i64)
    ensures
        r == sat(v as int),
{
    if v > LIM as i128 {
        LIM
    } else if v < -(LIM as i128) {
        -LIM
    } else {
        v as i64
    }
}

/// Floor division by a positive divisor.
pub fn div_floor(a: i128, b: i128) -> (q: i128)
    requires
        b > 0,
        -BIG < a < BIG,
    ensures
        q == a / b,
        -BIG < q < BIG,
{
    if a >= 0 {
        proof {
            vstd::arithmetic::div_mod::lemma_div_nonincreasing(a as int, b as int);
            vstd::arithmetic::div_mod::lemma_div_pos_is_pos(a as int, b as int);
        }
        a / b
    } else {
        let n: i128 = -a - 1;
        let m: i128 = n / b;
        proof {
            let r = (n as int) % (b as int);
            assert(n == b * m + r && 0 <= r < b) by {
                vstd::arithmetic::div_mod::lemma_fundamental_div_mod(n as int, b as int);
            };
            vstd::arithmetic::div_mod::lemma_div_nonincreasing(n as int, b as int);
            vstd::arithmetic::div_mod::lemma_div_pos_is_pos(n as int, b as int);
            assert(a == b * (-m - 1) + (b - 1 - r)) by (nonlinear_arith)
                requires
                    n == b * m + r,
                    a == -n - 1,
            ;
            vstd::arithmetic::div_mod::lemma_fundamental_div_mod_converse(
                a as int,
                b as int,
                -m - 1,
                b - 1 - r,
            );
        }
        -m - 1
    }
}

/// Floor division by a non-zero divisor of either sign.
pub fn div_signed(a: i128, b: i128) -> (q: i128)
    requires
        b != 0,
        -BIG < a < BIG,
        -BIG < b < BIG,
    ensures
        q == fdiv(a as int, b as int),
        -BIG < q < BIG,
{
    if b > 0 {
        div_floor(a, b)
    } else {
        div_floor(-a, -b)
    }
}

/// Integer square root: the largest `r` with `r * r <= n`.
pub fn isqrt(n: i128) -> (r: i128)
    requires
        0 <= n < 0x1000_0000_0000_0000_0000_0000_0000_0000,
    ensures
        is_isqrt(n as int, r as int),
        r < 0x4000_0000_0000_0000,
{
    let mut lo: i128 = 0;
    let mut hi: i128 = 0x4000_0000_0000_0000;
    assert(hi * hi > n) by (nonlinear_arith)
        requires
            hi == 0x4000_0000_0000_0000i128,
            n < 0x1000_0000_0000_0000_0000_0000_0000_0000,
    ;
    while hi - lo > 1
        invariant
            0 <= lo < hi <= 0x4000_0000_0000_0000,
            lo * lo <= n,
            n < hi * hi,
        decreases hi - lo,
    {
        let mid: i128 = lo + (hi - lo) / 2;
        proof {
            let h: int = 0x4000_0000_0000_0000;
            vstd::arithmetic::mul::lemma_mul_inequality(mid as int, h, mid as int);
            vstd::arithmetic::mul::lemma_mul_inequality(mid as int, h, h);
            assert(mid * h == h * mid) by (nonlinear_arith);
        }
        if mid * mid <= n {
            lo = mid;
        } else {
            hi = mid;
        }
    }
    lo
}

/// `v` held to `[-SMAX, SMAX]`.
pub fn ssaturate(v: i128) -> (r: i64)
    ensures
        r == ssat(v as int),
{
    if v > SMAX as i128 {
        SMAX
    } else if v < -(SMAX as i128) {
        -SMAX
    } else {
        v as i64
    }
}

/// Saturated sum of two scalars.
pub fn add_fx(a: i64, b: i64) -> (r: i64)
    ensures
        r == ssat(a + b),
{
    ssaturate(a as i128 + b as i128)
}

/// Saturated fixed-point product.
pub fn mul_fx(a: i64, b: i64) -> (r: i64)
    ensures
        r == ssat(fmul(a as int, b as int)),
{
    proof {
        lemma_mul_bounded(a as int, b as int, 0x8000_0000_0000_0000, 0x8000_0000_0000_0000);
    }
    ssaturate(div_floor(a as i128 * b as i128, ONE as i128))
}

/// Saturated fixed-point quotient.
pub fn quot_fx(a: i64, b: i64) -> (r: i64)
    requires
        b != 0,
    ensures
        r == ssat(fquot(a as int, b as int)),
{
    proof {
        lemma_mul_bounded(a as int, ONE as int, 0x8000_0000_0000_0000, ONE as int);
    }
    ssaturate(div_signed(a as i128 * ONE as i128, b as i128))
}

/// Fixed-point square root of a non-negative scalar, rounded down.
pub fn sqrt_fx(a: i64) -> (r: i64)
    requires
        0 <= a <= SMAX,
    ensures
        is_isqrt(a * ONE, r as int),
        0 <= r <= 0x1_0000_0000,
{
    let s = isqrt(a as i128 * ONE as i128);
    proof {
        if s > 0x1_0000_0000 {
            assert(s * s > 0x1_0000_0000_0000_0000) by (nonlinear_arith)
                requires s > 0x1_0000_0000;
        }
    }
    s as i64
}

} // verus!
