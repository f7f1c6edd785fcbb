//! Three fixed-point components, used as a point, a direction or a colour.
use vstd::prelude::*;
use crate::fixed::{
    fdiv, fmul, fquot, is_isqrt, sat, saturate, div_floor, div_signed, isqrt, BIG, LIM, ONE,
};

verus! {

#[derive(Clone, Copy, Debug, PartialEq, Eq, Structural)]
pub struct Vec3 {
    pub x: i64,
    pub y: i64,
    pub z: i64,
}

/// `n`'s integer square root (rounded down).
pub open spec fn sqrt_floor(n: int) -> int {
    choose|r: int| is_isqrt(n, r)
}

pub proof fn lemma_isqrt_unique(n: int, r: int)
    requires
        is_isqrt(n, r),
    ensures
        sqrt_floor(n) == r,
{
    let s = sqrt_floor(n);
    assert(is_isqrt(n, s));
    if s < r {
        assert((s + 1) * (s + 1) <= r * r) by (nonlinear_arith)
            requires
                0 <= s,
                s + 1 <= r,
        ;
    } else if r < s {
        assert((r + 1) * (r + 1) <= s * s) by (nonlinear_arith)
            requires
                0 <= r,
                r + 1 <= s,
        ;
    }
}

pub open spec fn mk(x: int, y: int, z: int) -> Vec3 {
    Vec3 { x: sat(x) as i64, y: sat(y) as i64, z: sat(z) as i64 }
}

pub open spec fn vadd(a: Vec3, b: Vec3) -> Vec3 {
    mk(a.x + b.x, a.y + b.y, a.z + b.z)
}

pub open spec fn vsub(a: Vec3, b: Vec3) -> Vec3 {
    mk(a.x - b.x, a.y - b.y, a.z - b.z)
}

pub open spec fn vneg(a: Vec3) -> Vec3 {
    mk(-a.x, -a.y, -a.z)
}

/// Component-wise product.
pub open spec fn vmul(a: Vec3, b: Vec3) -> Vec3 {
    mk(fmul(a.x as int, b.x as int), fmul(a.y as int, b.y as int), fmul(a.z as int, b.z as int))
}

/// Every component times the scalar `s`.
pub open spec fn vscale(a: Vec3, s: int) -> Vec3 {
    mk(fmul(s, a.x as int), fmul(s, a.y as int), fmul(s, a.z as int))
}

/// Every component divided by the scalar `s`.
pub open spec fn vdiv(a: Vec3, s: int) -> Vec3 {
    mk(fquot(a.x as int, s), fquot(a.y as int, s), fquot(a.z as int, s))
}

/// Exact dot product, at scale `ONE * ONE`.
pub open spec fn dot_raw(a: Vec3, b: Vec3) -> int {
    a.x * b.x + a.y * b.y + a.z * b.z
}

pub open spec fn vdot(a: Vec3, b: Vec3) -> int {
    dot_raw(a, b) / (ONE as int)
}

pub open spec fn vcross(a: Vec3, b: Vec3) -> Vec3 {
    mk(
        (a.y * b.z - a.z * b.y) / (ONE as int),
        (a.z * b.x - a.x * b.z) / (ONE as int),
        (a.x * b.y - a.y * b.x) / (ONE as int),
    )
}

/// Euclidean length, rounded down.
pub open spec fn vlen(a: Vec3) -> int {
    sqrt_floor(dot_raw(a, a))
}

/// `a` scaled to unit length; the zero vector stays as it is.
pub open spec fn vunit(a: Vec3) -> Vec3 {
    if vlen(a) == 0 {
        a
    } else {
        vdiv(a, vlen(a))
    }
}

pub open spec fn zero() -> Vec3 {
    Vec3 { x: 0, y: 0, z: 0 }
}

/// Each component of a vector scaled to unit length lies in `[-1, 1]`.
pub proof fn lemma_unit_bounded(a: Vec3)
    requires
        a.wf(),
    ensures
        vunit(a).wf(),
        -ONE <= vunit(a).x <= ONE,
        -ONE <= vunit(a).y <= ONE,
        -ONE <= vunit(a).z <= ONE,
{
    let n = dot_raw(a, a);
    lemma_products(a, a);
    let w = crate::fixed::isqrt_witness(n);
    lemma_isqrt_unique(n, w);
    let len = vlen(a);
    assert(crate::fixed::is_isqrt(n, len));
    if len == 0 {
        assert(n < 1) by (nonlinear_arith)
            requires n < (len + 1) * (len + 1), len == 0;
        assert(a.x == 0 && a.y == 0 && a.z == 0) by (nonlinear_arith)
            requires
                a.x * a.x + a.y * a.y + a.z * a.z < 1,
                0 <= a.x * a.x,
                0 <= a.y * a.y,
                0 <= a.z * a.z,
        ;
    } else {
        lemma_component_le_len(a.x as int, n, len);
        lemma_component_le_len(a.y as int, n, len);
        lemma_component_le_len(a.z as int, n, len);
        lemma_quot_in_unit(a.x as int, len);
        lemma_quot_in_unit(a.y as int, len);
        lemma_quot_in_unit(a.z as int, len);
    }
}

proof fn lemma_component_le_len(c: int, n: int, len: int)
    requires
        c * c <= n,
        n < (len + 1) * (len + 1),
        len >= 0,
    ensures
        -len <= c <= len,
{
    if c > len {
        assert((len + 1) * (len + 1) <= c * c) by (nonlinear_arith) requires c >= len + 1, len >= 0;
    }
    if c < -len {
        assert((len + 1) * (len + 1) <= c * c) by (nonlinear_arith) requires -c >= len + 1, len >= 0;
    }
}

proof fn lemma_quot_in_unit(c: int, len: int)
    requires
        -len <= c <= len,
        len > 0,
    ensures
        -ONE <= fquot(c, len) <= ONE,
{
    assert(-len * ONE <= c * ONE <= len * ONE) by (nonlinear_arith) requires -len <= c <= len;
    vstd::arithmetic::div_mod::lemma_div_is_ordered(c * ONE, len * ONE, len);
    vstd::arithmetic::div_mod::lemma_div_is_ordered(-len * ONE, c * ONE, len);
    vstd::arithmetic::div_mod::lemma_div_by_multiple(ONE as int, len);
    vstd::arithmetic::div_mod::lemma_fundamental_div_mod_converse(-len * ONE, len, -ONE as int, 0);
    assert(len * ONE == ONE * len) by (nonlinear_arith);
    assert(-len * ONE == (-ONE) * len) by (nonlinear_arith);
}

proof fn lemma_products(a: Vec3, b: Vec3)
    requires
        a.wf(),
        b.wf(),
    ensures
        -0x10_0000_0000_0000 <= a.x * b.x <= 0x10_0000_0000_0000,
        -0x10_0000_0000_0000 <= a.y * b.y <= 0x10_0000_0000_0000,
        -0x10_0000_0000_0000 <= a.z * b.z <= 0x10_0000_0000_0000,
        -0x10_0000_0000_0000 <= a.y * b.z <= 0x10_0000_0000_0000,
        -0x10_0000_0000_0000 <= a.z * b.y <= 0x10_0000_0000_0000,
        -0x10_0000_0000_0000 <= a.z * b.x <= 0x10_0000_0000_0000,
        -0x10_0000_0000_0000 <= a.x * b.z <= 0x10_0000_0000_0000,
        -0x10_0000_0000_0000 <= a.x * b.y <= 0x10_0000_0000_0000,
        -0x10_0000_0000_0000 <= a.y * b.x <= 0x10_0000_0000_0000,
        0 <= a.x * a.x,
        0 <= a.y * a.y,
        0 <= a.z * a.z,
{
    assert forall|p: int, q: int|
        -LIM <= p <= LIM && -LIM <= q <= LIM implies -0x10_0000_0000_0000 <= #[trigger] (p * q)
        <= 0x10_0000_0000_0000 by {
        assert(-0x10_0000_0000_0000 <= p * q <= 0x10_0000_0000_0000) by (nonlinear_arith)
            requires
                -0x400_0000 <= p <= 0x400_0000,
                -0x400_0000 <= q <= 0x400_0000,
        ;
    }
    assert forall|p: int| #![trigger p * p] 0 <= p * p by {
        assert(0 <= p * p) by (nonlinear_arith);
    }
}

/// The exact dot product, at scale `ONE * ONE`.
pub fn dot_exact(a: &Vec3, b: &Vec3) -> (r: i128)
    requires
        a.wf(),
        b.wf(),
    ensures
        r == dot_raw(*a, *b),
        -0x40_0000_0000_0000 <= r <= 0x40_0000_0000_0000,
{
    proof {
        lemma_products(*a, *b);
    }
    (a.x as i128) * (b.x as i128) + (a.y as i128) * (b.y as i128) + (a.z as i128) * (b.z as i128)
}

/// Dot product.
pub fn dot(v1: &Vec3, v2: &Vec3) -> (r: i64)
    requires
        v1.wf(),
        v2.wf(),
    ensures
        r == vdot(*v1, *v2),
        -0x400_0000_0000 <= r <= 0x400_0000_0000,
{
    let d = dot_exact(v1, v2);
    let q = div_floor(d, ONE as i128);
    assert(-0x400_0000_0000 <= q <= 0x400_0000_0000) by {
        assert(-0x40_0000_0000_0000 <= d <= 0x40_0000_0000_0000);
        vstd::arithmetic::div_mod::lemma_div_is_ordered(d as int, 0x40_0000_0000_0000, ONE as int);
        vstd::arithmetic::div_mod::lemma_div_is_ordered(-0x40_0000_0000_0000, d as int, ONE as int);
    }
    q as i64
}

/// Cross product.
pub fn cross(v1: &Vec3, v2: &Vec3) -> (r: Vec3)
    requires
        v1.wf(),
        v2.wf(),
    ensures
        r == vcross(*v1, *v2),
        r.wf(),
{
    proof {
        lemma_products(*v1, *v2);
    }
    let a = (v1.y as i128) * (v2.z as i128) - (v1.z as i128) * (v2.y as i128);
    let b = (v1.z as i128) * (v2.x as i128) - (v1.x as i128) * (v2.z as i128);
    let c = (v1.x as i128) * (v2.y as i128) - (v1.y as i128) * (v2.x as i128);
    Vec3 {
        x: saturate(div_floor(a, ONE as i128)),
        y: saturate(div_floor(b, ONE as i128)),
        z: saturate(div_floor(c, ONE as i128)),
    }
}

/// `v` scaled to unit length (the zero vector is returned as it is).
pub fn unit_vector(v: &Vec3) -> (r: Vec3)
    requires
        v.wf(),
    ensures
        r == vunit(*v),
        r.wf(),
{
    let len = v.length();
    if len == 0 {
        *v
    } else {
        v.div(len)
    }
}

impl Vec3 {
    /// Every component lies in `[-LIM, LIM]`.
    pub open spec fn wf(&self) -> bool {
        -LIM <= self.x <= LIM && -LIM <= self.y <= LIM && -LIM <= self.z <= LIM
    }

    /// Whether every component lies in `[-LIM, LIM]`.
    pub fn is_valid(&self) -> (ok: bool)
        ensures
            ok == self.wf(),
    {
        -LIM <= self.x && self.x <= LIM && -LIM <= self.y && self.y <= LIM && -LIM <= self.z && self.z <= LIM
    }

    /// A vector of the three raw components, each saturated to `[-LIM, LIM]`.
    pub fn new(e0: i64, e1: i64, e2: i64) -> (r: Vec3)
        ensures
            r == mk(e0 as int, e1 as int, e2 as int),
            r.wf(),
    {
        Vec3 { x: saturate(e0 as i128), y: saturate(e1 as i128), z: saturate(e2 as i128) }
    }

    pub fn zero() -> (r: Vec3)
        ensures
            r == zero(),
            r.wf(),
    {
        Vec3 { x: 0, y: 0, z: 0 }
    }

    pub fn x(&self) -> (r: i64)
        ensures
            r == self.x,
    {
        self.x
    }

    pub fn y(&self) -> (r: i64)
        ensures
            r == self.y,
    {
        self.y
    }

    pub fn z(&self) -> (r: i64)
        ensures
            r == self.z,
    {
        self.z
    }

    pub fn r(&self) -> (r: i64)
        ensures
            r == self.x,
    {
        self.x
    }

    pub fn g(&self) -> (r: i64)
        ensures
            r == self.y,
    {
        self.y
    }

    pub fn b(&self) -> (r: i64)
        ensures
            r == self.z,
    {
        self.z
    }

    /// Component `idx`: 0 is x, 1 is y, 2 is z.
    pub fn index(&self, idx: usize) -> (r: i64)
        requires
            idx < 3,
        ensures
            r == self.at(idx as int),
    {
        if idx == 0 {
            self.x
        } else if idx == 1 {
            self.y
        } else {
            self.z
        }
    }

    pub open spec fn at(&self, idx: int) -> i64 {
        if idx == 0 {
            self.x
        } else if idx == 1 {
            self.y
        } else {
            self.z
        }
    }

    /// Euclidean length, rounded down.
    pub fn length(&self) -> (r: i64)
        requires
            self.wf(),
        ensures
            r == vlen(*self),
            0 <= r <= 2 * LIM,
    {
        let n = dot_exact(self, self);
        proof {
            lemma_products(*self, *self);
        }
        let s = isqrt(n);
        proof {
            lemma_isqrt_unique(n as int, s as int);
            if s > 2 * LIM {
                assert(s * s > 4 * LIM * LIM) by (nonlinear_arith)
                    requires
                        s > 2 * LIM,
                ;
            }
        }
        s as i64
    }

    /// Squared length.
    pub fn squared_length(&self) -> (r: i64)
        requires
            self.wf(),
        ensures
            r == vdot(*self, *self),
            r >= 0,
    {
        proof {
            lemma_products(*self, *self);
            vstd::arithmetic::div_mod::lemma_div_pos_is_pos(dot_raw(*self, *self), ONE as int);
        }
        dot(self, self)
    }

    /// Scales the vector to unit length in place (the zero vector stays).
    pub fn make_unit_vector(&mut self)
        requires
            old(self).wf(),
        ensures
            *final(self) == vunit(*old(self)),
            final(self).wf(),
    {
        *self = unit_vector(self);
    }

    pub fn neg(&self) -> (r: Vec3)
        requires
            self.wf(),
        ensures
            r == vneg(*self),
            r.wf(),
    {
        Vec3 { x: -self.x, y: -self.y, z: -self.z }
    }

    pub fn add(&self, v: &Vec3) -> (r: Vec3)
        requires
            self.wf(),
            v.wf(),
        ensures
            r == vadd(*self, *v),
            r.wf(),
    {
        Vec3 {
            x: saturate(self.x as i128 + v.x as i128),
            y: saturate(self.y as i128 + v.y as i128),
            z: saturate(self.z as i128 + v.z as i128),
        }
    }

    pub fn sub(&self, v: &Vec3) -> (r: Vec3)
        requires
            self.wf(),
            v.wf(),
        ensures
            r == vsub(*self, *v),
            r.wf(),
    {
        Vec3 {
            x: saturate(self.x as i128 - v.x as i128),
            y: saturate(self.y as i128 - v.y as i128),
            z: saturate(self.z as i128 - v.z as i128),
        }
    }

    /// Component-wise product.
    pub fn mul(&self, v: &Vec3) -> (r: Vec3)
        requires
            self.wf(),
            v.wf(),
        ensures
            r == vmul(*self, *v),
            r.wf(),
    {
        proof {
            lemma_products(*self, *v);
        }
        Vec3 {
            x: saturate(div_floor(self.x as i128 * v.x as i128, ONE as i128)),
            y: saturate(div_floor(self.y as i128 * v.y as i128, ONE as i128)),
            z: saturate(div_floor(self.z as i128 * v.z as i128, ONE as i128)),
        }
    }

    /// Every component times the fixed-point scalar `s`.
    pub fn scale(&self, s: i64) -> (r: Vec3)
        requires
            self.wf(),
        ensures
            r == vscale(*self, s as int),
            r.wf(),
    {
        proof {
            assert forall|p: int, q: int|
                -LIM <= p <= LIM && i64::MIN <= q <= i64::MAX implies -0x1_0000_0000_0000_0000_0000_0000
                <= #[trigger] (q * p) <= 0x1_0000_0000_0000_0000_0000_0000 by {
                assert(-0x1_0000_0000_0000_0000_0000_0000 <= q * p <= 0x1_0000_0000_0000_0000_0000_0000)
                    by (nonlinear_arith)
                    requires
                        -0x400_0000 <= p <= 0x400_0000,
                        -0x8000_0000_0000_0000 <= q <= 0x7fff_ffff_ffff_ffff,
                ;
            }
        }
        Vec3 {
            x: saturate(div_floor(s as i128 * self.x as i128, ONE as i128)),
            y: saturate(div_floor(s as i128 * self.y as i128, ONE as i128)),
            z: saturate(div_floor(s as i128 * self.z as i128, ONE as i128)),
        }
    }

    /// Every component divided by the fixed-point scalar `s`.
    pub fn div(&self, s: i64) -> (r: Vec3)
        requires
            self.wf(),
            s != 0,
        ensures
            r == vdiv(*self, s as int),
            r.wf(),
    {
        assert(-0x100_0000_0000_0000 <= self.x * ONE <= 0x100_0000_0000_0000);
        assert(-0x100_0000_0000_0000 <= self.y * ONE <= 0x100_0000_0000_0000);
        assert(-0x100_0000_0000_0000 <= self.z * ONE <= 0x100_0000_0000_0000);
        Vec3 {
            x: saturate(div_signed(self.x as i128 * ONE as i128, s as i128)),
            y: saturate(div_signed(self.y as i128 * ONE as i128, s as i128)),
            z: saturate(div_signed(self.z as i128 * ONE as i128, s as i128)),
        }
    }

    pub fn add_assign(&mut self, v: &Vec3)
        requires
            old(self).wf(),
            v.wf(),
        ensures
            *final(self) == vadd(*old(self), *v),
            final(self).wf(),
    {
        *self = self.add(v);
    }

    /// Subtracts the fixed-point scalar `s` from every component.
    pub fn sub_assign(&mut self, s: i64)
        requires
            old(self).wf(),
            -LIM <= s <= LIM,
        ensures
            *final(self) == mk(old(self).x - s, old(self).y - s, old(self).z - s),
            final(self).wf(),
    {
        *self = Vec3 {
            x: saturate(self.x as i128 - s as i128),
            y: saturate(self.y as i128 - s as i128),
            z: saturate(self.z as i128 - s as i128),
        };
    }

    pub fn mul_assign(&mut self, s: i64)
        requires
            old(self).wf(),
        ensures
            *final(self) == vscale(*old(self), s as int),
            final(self).wf(),
    {
        *self = self.scale(s);
    }

    pub fn div_assign(&mut self, s: i64)
        requires
            old(self).wf(),
            s != 0,
        ensures
            *final(self) == vdiv(*old(self), s as int),
            final(self).wf(),
    {
        *self = self.div(s);
    }
}

} // verus!
