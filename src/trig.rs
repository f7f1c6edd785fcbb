//! A fixed-point sine, by Bhaskara's rational approximation (error below 0.002).
use vstd::prelude::*;
use crate::fixed::{div_floor, fdiv, ONE};
use crate::hitable::sphere::{HALF_PI, PI};

verus! {

/// `2π` in fixed point.
pub const TWO_PI: i64 = 411775;

/// `sin(y)` for `y` in `[0, π]`: `16 y (π - y) / (5 π² - 4 y (π - y))`.
pub open spec fn bhaskara(y: int) -> int {
    fdiv(16 * y * (PI - y) * ONE, 5 * PI * PI - 4 * y * (PI - y))
}

/// `sin(x)` for the fixed-point angle `x`.
pub open spec fn sin_spec(x: int) -> int {
    let y = x % (TWO_PI as int);
    if y < PI {
        bhaskara(y)
    } else {
        -bhaskara(y - PI)
    }
}

/// `cos(x) = sin(x + π/2)`.
pub open spec fn cos_spec(x: int) -> int {
    sin_spec(x + HALF_PI)
}

pub proof fn lemma_bhaskara_bounded(y: int)
    requires
        0 <= y <= PI,
    ensures
        0 <= bhaskara(y) <= ONE,
{
    let q = y * (PI - y);
    assert(0 <= q <= PI * PI) by (nonlinear_arith)
        requires q == y * (PI - y), 0 <= y <= PI;
    assert(4 * q <= PI * PI) by (nonlinear_arith)
        requires q == y * (PI - y);
    let num = 16 * y * (PI - y) * ONE;
    let den = 5 * PI * PI - 4 * y * (PI - y);
    assert(num == 16 * q * ONE && den == 5 * PI * PI - 4 * q) by (nonlinear_arith)
        requires q == y * (PI - y), num == 16 * y * (PI - y) * ONE, den == 5 * PI * PI - 4 * y * (PI - y);
    vstd::arithmetic::div_mod::lemma_div_pos_is_pos(num, den);
    assert(num <= den * ONE) by (nonlinear_arith)
        requires num == 16 * q * ONE, den == 5 * PI * PI - 4 * q, 4 * q <= PI * PI, q >= 0;
    vstd::arithmetic::div_mod::lemma_div_is_ordered(num, den * ONE, den);
    vstd::arithmetic::div_mod::lemma_div_by_multiple(ONE as int, den);
    assert(den * ONE == ONE * den) by (nonlinear_arith);
}

/// The sine lies in `[-1, 1]`.
pub proof fn lemma_sin_bounded(x: int)
    ensures
        -ONE <= sin_spec(x) <= ONE,
{
    let y = x % (TWO_PI as int);
    if y < PI {
        lemma_bhaskara_bounded(y);
    } else {
        lemma_bhaskara_bounded(y - PI);
    }
}

fn bhaskara_exec(y: i64) -> (r: i64)
    requires
        0 <= y <= PI,
    ensures
        r == bhaskara(y as int),
        0 <= r <= ONE,
{
    assert(0 <= y * (PI - y) <= PI * PI) by (nonlinear_arith)
        requires 0 <= y <= PI;
    let q: i128 = y as i128 * (PI - y) as i128;
    assert(4 * q <= PI * PI) by (nonlinear_arith)
        requires q == y * (PI - y);
    let num: i128 = 16 * q * ONE as i128;
    let den: i128 = 5 * PI as i128 * PI as i128 - 4 * q;
    assert(num == 16 * y * (PI - y) * ONE) by (nonlinear_arith)
        requires num == 16 * q * ONE, q == y * (PI - y);
    assert(den == 5 * PI * PI - 4 * y * (PI - y)) by (nonlinear_arith)
        requires den == 5 * PI * PI - 4 * q, q == y * (PI - y);
    proof {
        vstd::arithmetic::div_mod::lemma_div_pos_is_pos(num as int, den as int);
        assert(num <= den * ONE) by (nonlinear_arith)
            requires num == 16 * q * ONE, den == 5 * PI * PI - 4 * q, 4 * q <= PI * PI, q >= 0;
        vstd::arithmetic::div_mod::lemma_div_is_ordered(num as int, den * ONE, den as int);
        vstd::arithmetic::div_mod::lemma_div_by_multiple(ONE as int, den as int);
        assert(den * ONE == ONE * den) by (nonlinear_arith);
    }
    div_floor(num, den) as i64
}

/// Sine of the fixed-point angle `x`.
pub fn sin_fx(x: i64) -> (r: i64)
    ensures
        r == sin_spec(x as int),
        -ONE <= r <= ONE,
{
    let k = div_floor(x as i128, TWO_PI as i128);
    let y = x as i128 - k * TWO_PI as i128;
    proof {
        vstd::arithmetic::div_mod::lemma_fundamental_div_mod(x as int, TWO_PI as int);
        crate::fixed::lemma_div_bounded(x as int, TWO_PI as int, 0x8000_0000_0000_0000);
    }
    if y < PI as i128 {
        bhaskara_exec(y as i64)
    } else {
        -bhaskara_exec((y - PI as i128) as i64)
    }
}

/// Cosine of the fixed-point angle `x`.
pub fn cos_fx(x: i64) -> (r: i64)
    requires
        x <= i64::MAX - HALF_PI,
    ensures
        r == cos_spec(x as int),
        -ONE <= r <= ONE,
{
    sin_fx(x + HALF_PI)
}

} // verus!
