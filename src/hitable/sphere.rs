//! Spheres, fixed and moving, and the texture coordinates of a point on a sphere.
use vstd::prelude::*;
use crate::aabb::{surrounding_box, union_box, Aabb};
use crate::fixed::{
    div_floor, div_signed, fdiv, fmul, fquot, isqrt, is_isqrt, lemma_div_bounded, lemma_mul_bounded, sat,
    saturate, BIG, LIM, ONE,
};
use crate::hitable::HitRecord;
use crate::ray::{ray_at, Ray};
use crate::vec::{dot_exact, dot_raw, lemma_isqrt_unique, mk, sqrt_floor, vadd, vdiv, vscale, vsub, Vec3};

verus! {

/// `π` in fixed point.
pub const PI: i64 = 205887;

/// `π / 2` in fixed point.
pub const HALF_PI: i64 = 102944;

/// `π / 4` in fixed point.
pub const QUARTER_PI: i64 = 51472;

/// Coefficient of the arctangent approximation on `[0, 1]`.
pub const ATAN_K: i64 = 17891;

#[derive(Clone, Copy)]
pub struct Sphere {
    pub center: Vec3,
    pub radius: i64,
    pub material: usize,
}

#[derive(Clone, Copy)]
pub struct MovingSphere {
    pub center0: Vec3,
    pub center1: Vec3,
    pub time0: i64,
    pub time1: i64,
    pub radius: i64,
    pub material: usize,
}

/// `atan(x)` for `x` in `[0, 1]`, by `x * (π/4 + k * (1 - x))`.
pub open spec fn atan_unit(x: int) -> int {
    fmul(x, QUARTER_PI + fmul(ATAN_K as int, ONE - x))
}

/// The angle of `(x, y)` in `[-π, π]`; zero for the origin.
pub open spec fn atan2_fx(y: int, x: int) -> int {
    let ax = if x < 0 { -x } else { x };
    let ay = if y < 0 { -y } else { y };
    if ax == 0 && ay == 0 {
        0
    } else {
        let a = if ay <= ax {
            atan_unit(fquot(ay, ax))
        } else {
            HALF_PI - atan_unit(fquot(ax, ay))
        };
        let a2 = if x < 0 { PI - a } else { a };
        if y < 0 { -a2 } else { a2 }
    }
}

pub open spec fn clamp_unit(v: int) -> int {
    if v < 0 { 0 } else if v > ONE { ONE as int } else { v }
}

/// Texture coordinates of the point with unit normal `n`: `u` from the azimuth
/// and `v` from the polar angle, both in `[0, 1]`.
pub open spec fn sphere_uv(n: Vec3) -> (int, int) {
    let y = if n.y > ONE { ONE as int } else if n.y < -ONE { -ONE } else { n.y as int };
    let phi = atan2_fx(n.z as int, n.x as int);
    let theta = atan2_fx(y, sqrt_floor(ONE * ONE - y * y));
    (clamp_unit(ONE - fquot(phi + PI, 2 * PI)), clamp_unit(fquot(theta + HALF_PI, PI as int)))
}

fn atan_unit_exec(x: i64) -> (r: i64)
    requires
        0 <= x <= ONE,
    ensures
        r == atan_unit(x as int),
        0 <= r <= HALF_PI,
{
    let k = div_floor(ATAN_K as i128 * (ONE - x) as i128, ONE as i128);
    assert(0 <= k <= ATAN_K) by {
        vstd::arithmetic::div_mod::lemma_div_pos_is_pos(ATAN_K * (ONE - x), ONE as int);
        assert(ATAN_K * (ONE - x) <= ATAN_K * ONE) by (nonlinear_arith)
            requires 0 <= x <= ONE;
        vstd::arithmetic::div_mod::lemma_div_is_ordered(ATAN_K * (ONE - x), ATAN_K * ONE, ONE as int);
        vstd::arithmetic::div_mod::lemma_div_by_multiple(ATAN_K as int, ONE as int);
    };
    let m = QUARTER_PI as i128 + k;
    assert(0 <= x * m <= ONE * (QUARTER_PI + ATAN_K)) by (nonlinear_arith)
        requires 0 <= x <= ONE, 0 <= m <= QUARTER_PI + ATAN_K;
    let r = div_floor(x as i128 * m, ONE as i128);
    assert(0 <= r <= HALF_PI) by {
        vstd::arithmetic::div_mod::lemma_div_pos_is_pos(x * m, ONE as int);
        vstd::arithmetic::div_mod::lemma_div_is_ordered(x * m, ONE * (QUARTER_PI + ATAN_K), ONE as int);
        vstd::arithmetic::div_mod::lemma_div_by_multiple((QUARTER_PI + ATAN_K) as int, ONE as int);
    };
    r as i64
}

proof fn lemma_quot_unit(a: int, b: int)
    requires
        0 <= a <= b,
        0 < b,
    ensures
        0 <= fquot(a, b) <= ONE,
{
    vstd::arithmetic::div_mod::lemma_div_pos_is_pos(a * ONE, b);
    assert(a * ONE <= b * ONE) by (nonlinear_arith)
        requires a <= b;
    vstd::arithmetic::div_mod::lemma_div_is_ordered(a * ONE, b * ONE, b);
    vstd::arithmetic::div_mod::lemma_div_by_multiple(ONE as int, b);
    assert(b * ONE == ONE * b) by (nonlinear_arith);
}

fn atan2_exec(y: i64, x: i64) -> (r: i64)
    requires
        -2 * LIM <= x <= 2 * LIM,
        -2 * LIM <= y <= 2 * LIM,
    ensures
        r == atan2_fx(y as int, x as int),
        -PI <= r <= PI,
{
    let ax: i64 = if x < 0 { -x } else { x };
    let ay: i64 = if y < 0 { -y } else { y };
    if ax == 0 && ay == 0 {
        return 0;
    }
    let a: i64;
    if ay <= ax {
        proof { lemma_quot_unit(ay as int, ax as int); }
        assert(0 <= ay * ONE <= 0x10_0000_0000_0000) by (nonlinear_arith)
            requires 0 <= ay <= 0x800_0000;
        let q = div_floor(ay as i128 * ONE as i128, ax as i128);
        a = atan_unit_exec(q as i64);
    } else {
        proof { lemma_quot_unit(ax as int, ay as int); }
        assert(0 <= ax * ONE <= 0x10_0000_0000_0000) by (nonlinear_arith)
            requires 0 <= ax <= 0x800_0000;
        let q = div_floor(ax as i128 * ONE as i128, ay as i128);
        a = HALF_PI - atan_unit_exec(q as i64);
    }
    let a2: i64 = if x < 0 { PI - a } else { a };
    if y < 0 { -a2 } else { a2 }
}

/// Texture coordinates of the point on a sphere with unit normal `p`.
pub fn get_sphere_uv(p: &Vec3) -> (r: (i64, i64))
    requires
        p.wf(),
    ensures
        r.0 == sphere_uv(*p).0,
        r.1 == sphere_uv(*p).1,
        0 <= r.0 <= ONE,
        0 <= r.1 <= ONE,
{
    let y: i64 = if p.y > ONE { ONE } else if p.y < -ONE { -ONE } else { p.y };
    let phi = atan2_exec(p.z, p.x);
    assert(0 <= ONE * ONE - y * y <= ONE * ONE) by (nonlinear_arith)
        requires -ONE <= y <= ONE;
    let c = isqrt(ONE as i128 * ONE as i128 - y as i128 * y as i128);
    proof {
        lemma_isqrt_unique(ONE * ONE - y * y, c as int);
        if c > ONE {
            assert(c * c > ONE * ONE) by (nonlinear_arith) requires c > ONE;
        }
    }
    let theta = atan2_exec(y, c as i64);
    let u = ONE as i128 - div_floor((phi as i128 + PI as i128) * ONE as i128, 2 * PI as i128);
    let v = div_floor((theta as i128 + HALF_PI as i128) * ONE as i128, PI as i128);
    let uc: i64 = if u < 0 { 0 } else if u > ONE as i128 { ONE } else { u as i64 };
    let vc: i64 = if v < 0 { 0 } else if v > ONE as i128 { ONE } else { v as i64 };
    (uc, vc)
}

/// The quadratic `a t^2 + 2 b t + c = 0` whose roots are where the ray meets the
/// sphere, with `a`, `b`, `c` at scale `ONE * ONE`.
pub open spec fn quad(center: Vec3, radius: int, r: Ray) -> (int, int, int) {
    let ox = r.a.x - center.x;
    let oy = r.a.y - center.y;
    let oz = r.a.z - center.z;
    (
        dot_raw(r.b, r.b),
        ox * r.b.x + oy * r.b.y + oz * r.b.z,
        ox * ox + oy * oy + oz * oz - radius * radius,
    )
}

pub open spec fn discriminant(q: (int, int, int)) -> int {
    q.1 * q.1 - q.0 * q.2
}

/// The nearer root, as a fixed-point parameter rounded down.
pub open spec fn near_root(q: (int, int, int)) -> int {
    fdiv((-q.1 - sqrt_floor(discriminant(q))) * ONE, q.0)
}

/// The farther root, as a fixed-point parameter rounded down.
pub open spec fn far_root(q: (int, int, int)) -> int {
    fdiv((-q.1 + sqrt_floor(discriminant(q))) * ONE, q.0)
}

/// The record of a hit at parameter `t` on the sphere: the normal is
/// `(p - center) / radius`, and the texture coordinates are those of that normal.
pub open spec fn sphere_record(center: Vec3, radius: int, mat: usize, r: Ray, t: int) -> HitRecord {
    let p = ray_at(r, t);
    let n = vdiv(vsub(p, center), radius);
    HitRecord {
        t: t as i64,
        p,
        normal: n,
        mat,
        u: sphere_uv(n).0 as i64,
        v: sphere_uv(n).1 as i64,
    }
}

/// The nearer root in `(lo, hi)`, else the farther one, else no hit.
pub open spec fn sphere_hit_at(center: Vec3, radius: int, mat: usize, r: Ray, lo: int, hi: int) -> Option<HitRecord> {
    let q = quad(center, radius, r);
    if discriminant(q) > 0 {
        let t1 = near_root(q);
        let t2 = far_root(q);
        if lo < t1 < hi {
            Some(sphere_record(center, radius, mat, r, t1))
        } else if lo < t2 < hi {
            Some(sphere_record(center, radius, mat, r, t2))
        } else {
            None
        }
    } else {
        None
    }
}

/// The box of a sphere: its centre plus and minus the radius on every axis.
pub open spec fn sphere_box(center: Vec3, radius: int) -> Aabb {
    Aabb {
        min: mk(center.x - radius, center.y - radius, center.z - radius),
        max: mk(center.x + radius, center.y + radius, center.z + radius),
    }
}

/// The centre of a moving sphere at `time`, interpolated linearly between its two centres.
pub open spec fn moving_center(s: MovingSphere, time: int) -> Vec3 {
    vadd(s.center0, vscale(vsub(s.center1, s.center0), fquot(time - s.time0, s.time1 - s.time0)))
}

pub proof fn lemma_quad_bounds(center: Vec3, radius: int, r: Ray)
    requires
        center.wf(),
        r.wf(),
        0 < radius <= LIM,
    ensures
        -0x20_0000_0000_0000 <= (r.a.x - center.x) * r.b.x <= 0x20_0000_0000_0000,
        -0x20_0000_0000_0000 <= (r.a.y - center.y) * r.b.y <= 0x20_0000_0000_0000,
        -0x20_0000_0000_0000 <= (r.a.z - center.z) * r.b.z <= 0x20_0000_0000_0000,
        0 <= (r.a.x - center.x) * (r.a.x - center.x) <= 0x40_0000_0000_0000,
        0 <= (r.a.y - center.y) * (r.a.y - center.y) <= 0x40_0000_0000_0000,
        0 <= (r.a.z - center.z) * (r.a.z - center.z) <= 0x40_0000_0000_0000,
        0 <= radius * radius <= 0x10_0000_0000_0000,
        0 <= quad(center, radius, r).0 <= 0x40_0000_0000_0000,
        -0x80_0000_0000_0000 <= quad(center, radius, r).1 <= 0x80_0000_0000_0000,
        -0x100_0000_0000_0000 <= quad(center, radius, r).2 <= 0x100_0000_0000_0000,
        -0x1_0000_0000_0000_0000_0000_0000_0000 < discriminant(quad(center, radius, r))
            < 0x1_0000_0000_0000_0000_0000_0000_0000,
        quad(center, radius, r).0 == 0 ==> discriminant(quad(center, radius, r)) == 0,
        -0x4000_0000_0000_0000_0000_0000_0000 <= quad(center, radius, r).1 * quad(center, radius, r).1
            <= 0x4000_0000_0000_0000_0000_0000_0000,
        -0x4000_0000_0000_0000_0000_0000_0000 <= quad(center, radius, r).0 * quad(center, radius, r).2
            <= 0x4000_0000_0000_0000_0000_0000_0000,
{
    let ox = r.a.x - center.x;
    let oy = r.a.y - center.y;
    let oz = r.a.z - center.z;
    let q = quad(center, radius, r);
    lemma_mul_bounded(ox, r.b.x as int, 0x800_0000, 0x400_0000);
    lemma_mul_bounded(oy, r.b.y as int, 0x800_0000, 0x400_0000);
    lemma_mul_bounded(oz, r.b.z as int, 0x800_0000, 0x400_0000);
    lemma_mul_bounded(ox, ox, 0x800_0000, 0x800_0000);
    lemma_mul_bounded(oy, oy, 0x800_0000, 0x800_0000);
    lemma_mul_bounded(oz, oz, 0x800_0000, 0x800_0000);
    lemma_mul_bounded(radius, radius, 0x400_0000, 0x400_0000);
    lemma_mul_bounded(r.b.x as int, r.b.x as int, 0x400_0000, 0x400_0000);
    lemma_mul_bounded(r.b.y as int, r.b.y as int, 0x400_0000, 0x400_0000);
    lemma_mul_bounded(r.b.z as int, r.b.z as int, 0x400_0000, 0x400_0000);
    assert forall|p: int| #![trigger p * p] 0 <= p * p by {
        assert(0 <= p * p) by (nonlinear_arith);
    }
    assert(0 <= ox * ox && 0 <= oy * oy && 0 <= oz * oz && 0 <= radius * radius);
    assert(0 <= r.b.x * r.b.x && 0 <= r.b.y * r.b.y && 0 <= r.b.z * r.b.z);
    lemma_mul_bounded(q.1, q.1, 0x80_0000_0000_0000, 0x80_0000_0000_0000);
    lemma_mul_bounded(q.0, q.2, 0x40_0000_0000_0000, 0x100_0000_0000_0000);
    if q.0 == 0 {
        assert(r.b.x == 0) by (nonlinear_arith)
            requires r.b.x * r.b.x + r.b.y * r.b.y + r.b.z * r.b.z == 0, 0 <= r.b.y * r.b.y, 0 <= r.b.z * r.b.z;
        assert(r.b.y == 0) by (nonlinear_arith)
            requires r.b.x * r.b.x + r.b.y * r.b.y + r.b.z * r.b.z == 0, 0 <= r.b.x * r.b.x, 0 <= r.b.z * r.b.z;
        assert(r.b.z == 0) by (nonlinear_arith)
            requires r.b.x * r.b.x + r.b.y * r.b.y + r.b.z * r.b.z == 0, 0 <= r.b.y * r.b.y, 0 <= r.b.x * r.b.x;
        assert(q.1 == 0) by (nonlinear_arith)
            requires
                q.1 == ox * r.b.x + oy * r.b.y + oz * r.b.z,
                r.b.x == 0,
                r.b.y == 0,
                r.b.z == 0,
        ;
        assert(q.0 * q.2 == 0) by (nonlinear_arith)
            requires q.0 == 0;
    }
}

fn sphere_record_exec(center: &Vec3, radius: i64, mat: usize, r: &Ray, t: i64) -> (rec: HitRecord)
    requires
        center.wf(),
        r.wf(),
        0 < radius <= LIM,
    ensures
        rec == sphere_record(*center, radius as int, mat, *r, t as int),
        rec.p.wf(),
        rec.normal.wf(),
{
    let p = r.point_at_parameter(t);
    let n = p.sub(center).div(radius);
    let (u, v) = get_sphere_uv(&n);
    HitRecord { t, p, normal: n, mat, u, v }
}

/// Where the ray first meets the sphere of `center` and `radius` within `(lo, hi)`.
pub fn sphere_hit_exec(center: &Vec3, radius: i64, mat: usize, r: &Ray, lo: i64, hi: i64) -> (res: Option<HitRecord>)
    requires
        center.wf(),
        r.wf(),
        0 < radius <= LIM,
    ensures
        res == sphere_hit_at(*center, radius as int, mat, *r, lo as int, hi as int),
{
    let ghost q = quad(*center, radius as int, *r);
    proof {
        lemma_quad_bounds(*center, radius as int, *r);
    }
    let ox = r.a.x as i128 - center.x as i128;
    let oy = r.a.y as i128 - center.y as i128;
    let oz = r.a.z as i128 - center.z as i128;
    let a = dot_exact(&r.b, &r.b);
    let b = ox * r.b.x as i128 + oy * r.b.y as i128 + oz * r.b.z as i128;
    let c = ox * ox + oy * oy + oz * oz - radius as i128 * radius as i128;
    assert(a == q.0 && b == q.1 && c == q.2);
    let disc = b * b - a * c;
    if disc > 0 {
        let s = isqrt(disc);
        proof {
            lemma_isqrt_unique(disc as int, s as int);
        }
        let t1 = div_signed((-b - s) * ONE as i128, a);
        if (lo as i128) < t1 && t1 < (hi as i128) {
            return Some(sphere_record_exec(center, radius, mat, r, t1 as i64));
        }
        let t2 = div_signed((-b + s) * ONE as i128, a);
        if (lo as i128) < t2 && t2 < (hi as i128) {
            return Some(sphere_record_exec(center, radius, mat, r, t2 as i64));
        }
    }
    None
}

pub proof fn lemma_moving_center_wf(s: MovingSphere, time: int)
    ensures
        moving_center(s, time).wf(),
{
}

impl Sphere {
    pub open spec fn wf(&self) -> bool {
        self.center.wf() && 0 < self.radius <= LIM
    }

    pub fn new(center: Vec3, radius: i64, material: usize) -> (s: Sphere)
        ensures
            s == (Sphere { center, radius, material }),
    {
        Sphere { center, radius, material }
    }

    /// Where the ray first meets the sphere within `(t_min, t_max)`.
    pub fn hit(&self, r: &Ray, t_min: i64, t_max: i64) -> (res: Option<HitRecord>)
        requires
            self.wf(),
            r.wf(),
        ensures
            res == sphere_hit_at(self.center, self.radius as int, self.material, *r, t_min as int, t_max as int),
    {
        sphere_hit_exec(&self.center, self.radius, self.material, r, t_min, t_max)
    }

    pub fn bounding_box(&self) -> (b: Aabb)
        requires
            self.wf(),
        ensures
            b == sphere_box(self.center, self.radius as int),
            b.wf(),
    {
        let rv = Vec3 { x: self.radius, y: self.radius, z: self.radius };
        Aabb::new(&self.center.sub(&rv), &self.center.add(&rv))
    }
}

impl MovingSphere {
    pub open spec fn wf(&self) -> bool {
        &&& self.center0.wf() && self.center1.wf()
        &&& 0 < self.radius <= LIM
        &&& -LIM <= self.time0 < self.time1 <= LIM
    }

    pub fn new(center0: Vec3, center1: Vec3, time0: i64, time1: i64, radius: i64, material: usize) -> (s: MovingSphere)
        ensures
            s == (MovingSphere { center0, center1, time0, time1, radius, material }),
    {
        MovingSphere { center0, center1, time0, time1, radius, material }
    }

    /// The centre at time `t`.
    pub fn center(&self, t: i64) -> (c: Vec3)
        requires
            self.wf(),
            -LIM <= t <= LIM,
        ensures
            c == moving_center(*self, t as int),
            c.wf(),
    {
        let span = (self.time1 - self.time0) as i128;
        assert(-0x10_0000_0000_0000 <= (t - self.time0) * ONE <= 0x10_0000_0000_0000);
        let f = div_signed((t as i128 - self.time0 as i128) * ONE as i128, span);
        proof {
            lemma_div_bounded((t - self.time0) * ONE, span as int, 0x10_0000_0000_0000);
        }
        self.center0.add(&self.center1.sub(&self.center0).scale(f as i64))
    }

    /// Where the ray first meets the sphere, at the ray's time, within `(t_min, t_max)`.
    pub fn hit(&self, r: &Ray, t_min: i64, t_max: i64) -> (res: Option<HitRecord>)
        requires
            self.wf(),
            r.wf(),
        ensures
            res == sphere_hit_at(moving_center(*self, r.time as int), self.radius as int, self.material, *r, t_min as int, t_max as int),
    {
        let c = self.center(r.time);
        sphere_hit_exec(&c, self.radius, self.material, r, t_min, t_max)
    }

    /// The union of the boxes at both ends of the motion.
    pub fn bounding_box(&self) -> (b: Aabb)
        requires
            self.wf(),
        ensures
            b == union_box(sphere_box(self.center0, self.radius as int), sphere_box(self.center1, self.radius as int)),
            b.wf(),
    {
        let rv = Vec3 { x: self.radius, y: self.radius, z: self.radius };
        let b0 = Aabb::new(&self.center0.sub(&rv), &self.center0.add(&rv));
        let b1 = Aabb::new(&self.center1.sub(&rv), &self.center1.add(&rv));
        surrounding_box(&b0, &b1)
    }
}

} // verus!
