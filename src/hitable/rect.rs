//! Axis-aligned rectangles in the three coordinate planes.
use vstd::prelude::*;
use crate::aabb::Aabb;
use crate::fixed::{div_floor, div_signed, fdiv, fmul, fquot, lemma_div_bounded, LIM, ONE};
use crate::hitable::HitRecord;
use crate::ray::{ray_at, Ray};
use crate::vec::{mk, Vec3};

verus! {

/// Half the thickness given to a rectangle's box along its normal (about `1e-4`).
pub const PAD: i64 = 7;

/// The position of `x` within `[0, w]` as a fraction in `[0, 1]`; zero for an empty span.
pub open spec fn frac(x: int, w: int) -> int {
    if w > 0 {
        fquot(x, w)
    } else {
        0
    }
}

/// Where a ray with origin `on` and direction `dn` along the normal crosses the
/// plane at `k`, if that is in `[lo, hi]` and the in-plane coordinates there lie in
/// `[a0, a1] x [b0, b1]`: the parameter and the texture coordinates.
pub open spec fn plane_hit(
    k: int,
    on: int,
    dn: int,
    oa: int,
    da: int,
    ob: int,
    db: int,
    a0: int,
    a1: int,
    b0: int,
    b1: int,
    lo: int,
    hi: int,
) -> Option<(int, int, int)> {
    if dn == 0 {
        None
    } else {
        let t = fdiv((k - on) * ONE, dn);
        if !(lo <= t <= hi) {
            None
        } else {
            let a = oa + fmul(t, da);
            let b = ob + fmul(t, db);
            if a < a0 || a > a1 || b < b0 || b > b1 {
                None
            } else {
                Some((t, frac(a - a0, a1 - a0), frac(b - b0, b1 - b0)))
            }
        }
    }
}

pub open spec fn plane_record(r: Ray, h: Option<(int, int, int)>, normal: Vec3, mat: usize) -> Option<HitRecord> {
    match h {
        Some((t, u, v)) => Some(HitRecord { t: t as i64, p: ray_at(r, t), normal, mat, u: u as i64, v: v as i64 }),
        None => None,
    }
}

fn frac_exec(x: i128, w: i128) -> (r: i64)
    requires
        0 <= x <= w,
        w <= 2 * LIM,
    ensures
        r == frac(x as int, w as int),
        0 <= r <= ONE,
{
    if w > 0 {
        proof {
            vstd::arithmetic::div_mod::lemma_div_pos_is_pos(x * ONE, w as int);
            assert(x * ONE <= w * ONE) by (nonlinear_arith) requires x <= w;
            vstd::arithmetic::div_mod::lemma_div_is_ordered(x * ONE, w * ONE, w as int);
            vstd::arithmetic::div_mod::lemma_div_by_multiple(ONE as int, w as int);
            assert(w * ONE == ONE * w) by (nonlinear_arith);
        }
        div_floor(x * ONE as i128, w) as i64
    } else {
        0
    }
}

fn plane_hit_exec(
    k: i64,
    on: i64,
    dn: i64,
    oa: i64,
    da: i64,
    ob: i64,
    db: i64,
    a0: i64,
    a1: i64,
    b0: i64,
    b1: i64,
    lo: i64,
    hi: i64,
) -> (res: Option<(i64, i64, i64)>)
    requires
        -LIM <= k <= LIM,
        -LIM <= on <= LIM,
        -LIM <= dn <= LIM,
        -LIM <= da <= LIM,
        -LIM <= db <= LIM,
        -LIM <= oa <= LIM,
        -LIM <= ob <= LIM,
        -LIM <= a0 <= a1 <= LIM,
        -LIM <= b0 <= b1 <= LIM,
    ensures
        match (res, plane_hit(k as int, on as int, dn as int, oa as int, da as int, ob as int, db as int,
            a0 as int, a1 as int, b0 as int, b1 as int, lo as int, hi as int)) {
            (Some(x), Some(y)) => x.0 == y.0 && x.1 == y.1 && x.2 == y.2,
            (None, None) => true,
            _ => false,
        },
{
    if dn == 0 {
        return None;
    }
    assert(-0x10_0000_0000_0000 <= (k - on) * ONE <= 0x10_0000_0000_0000) by (nonlinear_arith)
        requires -0x800_0000 <= k - on <= 0x800_0000;
    let t = div_signed((k as i128 - on as i128) * ONE as i128, dn as i128);
    if !((lo as i128) <= t && t <= (hi as i128)) {
        return None;
    }
    proof {
        crate::fixed::lemma_mul_bounded(t as int, da as int, 0x8000_0000_0000_0000, 0x400_0000);
        crate::fixed::lemma_mul_bounded(t as int, db as int, 0x8000_0000_0000_0000, 0x400_0000);
    }
    let a = oa as i128 + div_floor(t * da as i128, ONE as i128);
    let b = ob as i128 + div_floor(t * db as i128, ONE as i128);
    if a < a0 as i128 || a > a1 as i128 || b < b0 as i128 || b > b1 as i128 {
        return None;
    }
    let u = frac_exec(a - a0 as i128, a1 as i128 - a0 as i128);
    let v = frac_exec(b - b0 as i128, b1 as i128 - b0 as i128);
    Some((t as i64, u, v))
}

/// A rectangle in the plane `z = k`.
#[derive(Clone, Copy)]
pub struct XYRect {
    pub x0: i64,
    pub x1: i64,
    pub y0: i64,
    pub y1: i64,
    pub k: i64,
    pub mp: usize,
}

/// A rectangle in the plane `y = k`.
#[derive(Clone, Copy)]
pub struct XZRect {
    pub x0: i64,
    pub x1: i64,
    pub z0: i64,
    pub z1: i64,
    pub k: i64,
    pub mp: usize,
}

/// A rectangle in the plane `x = k`.
#[derive(Clone, Copy)]
pub struct YZRect {
    pub y0: i64,
    pub y1: i64,
    pub z0: i64,
    pub z1: i64,
    pub k: i64,
    pub mp: usize,
}

pub open spec fn xy_hit(q: XYRect, r: Ray, lo: int, hi: int) -> Option<HitRecord> {
    plane_record(
        r,
        plane_hit(q.k as int, r.a.z as int, r.b.z as int, r.a.x as int, r.b.x as int, r.a.y as int,
            r.b.y as int, q.x0 as int, q.x1 as int, q.y0 as int, q.y1 as int, lo, hi),
        Vec3 { x: 0, y: 0, z: ONE },
        q.mp,
    )
}

pub open spec fn xz_hit(q: XZRect, r: Ray, lo: int, hi: int) -> Option<HitRecord> {
    plane_record(
        r,
        plane_hit(q.k as int, r.a.y as int, r.b.y as int, r.a.x as int, r.b.x as int, r.a.z as int,
            r.b.z as int, q.x0 as int, q.x1 as int, q.z0 as int, q.z1 as int, lo, hi),
        Vec3 { x: 0, y: ONE, z: 0 },
        q.mp,
    )
}

pub open spec fn yz_hit(q: YZRect, r: Ray, lo: int, hi: int) -> Option<HitRecord> {
    plane_record(
        r,
        plane_hit(q.k as int, r.a.x as int, r.b.x as int, r.a.y as int, r.b.y as int, r.a.z as int,
            r.b.z as int, q.y0 as int, q.y1 as int, q.z0 as int, q.z1 as int, lo, hi),
        Vec3 { x: ONE, y: 0, z: 0 },
        q.mp,
    )
}

pub open spec fn xy_box(q: XYRect) -> Aabb {
    Aabb { min: mk(q.x0 as int, q.y0 as int, q.k - PAD), max: mk(q.x1 as int, q.y1 as int, q.k + PAD) }
}

pub open spec fn xz_box(q: XZRect) -> Aabb {
    Aabb { min: mk(q.x0 as int, q.k - PAD, q.z0 as int), max: mk(q.x1 as int, q.k + PAD, q.z1 as int) }
}

pub open spec fn yz_box(q: YZRect) -> Aabb {
    Aabb { min: mk(q.k - PAD, q.y0 as int, q.z0 as int), max: mk(q.k + PAD, q.y1 as int, q.z1 as int) }
}

fn finish(r: &Ray, h: Option<(i64, i64, i64)>, normal: Vec3, mat: usize) -> (res: Option<HitRecord>)
    requires
        r.wf(),
    ensures
        res == plane_record(*r, match h { Some(x) => Some((x.0 as int, x.1 as int, x.2 as int)), None => None }, normal, mat),
{
    match h {
        Some((t, u, v)) => Some(HitRecord { t, p: r.point_at_parameter(t), normal, mat, u, v }),
        None => None,
    }
}

impl XYRect {
    pub open spec fn wf(&self) -> bool {
        -LIM <= self.x0 <= self.x1 <= LIM && -LIM <= self.y0 <= self.y1 <= LIM && -LIM <= self.k <= LIM
    }

    pub fn new(x0: i64, x1: i64, y0: i64, y1: i64, k: i64, mat: usize) -> (q: XYRect)
        ensures
            q == (XYRect { x0, x1, y0, y1, k, mp: mat }),
    {
        XYRect { x0, x1, y0, y1, k, mp: mat }
    }

    pub fn hit(&self, r: &Ray, t_min: i64, t_max: i64) -> (res: Option<HitRecord>)
        requires
            self.wf(),
            r.wf(),
        ensures
            res == xy_hit(*self, *r, t_min as int, t_max as int),
    {
        let h = plane_hit_exec(self.k, r.a.z, r.b.z, r.a.x, r.b.x, r.a.y, r.b.y, self.x0, self.x1,
            self.y0, self.y1, t_min, t_max);
        finish(r, h, Vec3 { x: 0, y: 0, z: ONE }, self.mp)
    }

    pub fn bounding_box(&self) -> (b: Aabb)
        requires
            self.wf(),
        ensures
            b == xy_box(*self),
            b.wf(),
    {
        Aabb::new(&Vec3::new(self.x0, self.y0, self.k - PAD), &Vec3::new(self.x1, self.y1, self.k + PAD))
    }
}

impl XZRect {
    pub open spec fn wf(&self) -> bool {
        -LIM <= self.x0 <= self.x1 <= LIM && -LIM <= self.z0 <= self.z1 <= LIM && -LIM <= self.k <= LIM
    }

    pub fn new(x0: i64, x1: i64, z0: i64, z1: i64, k: i64, mat: usize) -> (q: XZRect)
        ensures
            q == (XZRect { x0, x1, z0, z1, k, mp: mat }),
    {
        XZRect { x0, x1, z0, z1, k, mp: mat }
    }

    pub fn hit(&self, r: &Ray, t_min: i64, t_max: i64) -> (res: Option<HitRecord>)
        requires
            self.wf(),
            r.wf(),
        ensures
            res == xz_hit(*self, *r, t_min as int, t_max as int),
    {
        let h = plane_hit_exec(self.k, r.a.y, r.b.y, r.a.x, r.b.x, r.a.z, r.b.z, self.x0, self.x1,
            self.z0, self.z1, t_min, t_max);
        finish(r, h, Vec3 { x: 0, y: ONE, z: 0 }, self.mp)
    }

    pub fn bounding_box(&self) -> (b: Aabb)
        requires
            self.wf(),
        ensures
            b == xz_box(*self),
            b.wf(),
    {
        Aabb::new(&Vec3::new(self.x0, self.k - PAD, self.z0), &Vec3::new(self.x1, self.k + PAD, self.z1))
    }
}

impl YZRect {
    pub open spec fn wf(&self) -> bool {
        -LIM <= self.y0 <= self.y1 <= LIM && -LIM <= self.z0 <= self.z1 <= LIM && -LIM <= self.k <= LIM
    }

    pub fn new(y0: i64, y1: i64, z0: i64, z1: i64, k: i64, mat: usize) -> (q: YZRect)
        ensures
            q == (YZRect { y0, y1, z0, z1, k, mp: mat }),
    {
        YZRect { y0, y1, z0, z1, k, mp: mat }
    }

    pub fn hit(&self, r: &Ray, t_min: i64, t_max: i64) -> (res: Option<HitRecord>)
        requires
            self.wf(),
            r.wf(),
        ensures
            res == yz_hit(*self, *r, t_min as int, t_max as int),
    {
        let h = plane_hit_exec(self.k, r.a.x, r.b.x, r.a.y, r.b.y, r.a.z, r.b.z, self.y0, self.y1,
            self.z0, self.z1, t_min, t_max);
        finish(r, h, Vec3 { x: ONE, y: 0, z: 0 }, self.mp)
    }

    pub fn bounding_box(&self) -> (b: Aabb)
        requires
            self.wf(),
        ensures
            b == yz_box(*self),
            b.wf(),
    {
        Aabb::new(&Vec3::new(self.k - PAD, self.y0, self.z0), &Vec3::new(self.k + PAD, self.y1, self.z1))
    }
}

} // verus!
