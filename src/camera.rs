//! The camera: an orthonormal basis, a focal-plane rectangle and a thin lens.
use vstd::prelude::*;
use crate::fixed::{fmul, ssat, LIM, ONE, SMAX};
use crate::hitable::sphere::{HALF_PI, PI};
use crate::material::{smul, squot};
use crate::ray::Ray;
use crate::rng::random_below;
use crate::trig::{cos_fx, cos_spec, sin_fx, sin_spec};
use crate::vec::{cross, unit_vector, vadd, vcross, vdot, vscale, vsub, vunit, Vec3};
use crate::fixed::{mul_fx, quot_fx};

verus! {

pub struct Camera {
    pub origin: Vec3,
    pub lower_left_corner: Vec3,
    pub horizontal: Vec3,
    pub vertical: Vec3,
    pub u: Vec3,
    pub v: Vec3,
    pub w: Vec3,
    pub lens_radius: i64,
}

/// `tan(θ/2)` for the vertical field of view `vfov` in degrees; `SMAX` where the
/// cosine is not positive.
pub open spec fn half_height(vfov: int) -> int {
    let theta = ssat(fmul(vfov, PI as int)) / 180;
    let s = sin_spec(theta / 2);
    let c = cos_spec(theta / 2);
    if c > 0 {
        squot(s, c)
    } else {
        SMAX as int
    }
}

/// The camera at `lookfrom` looking at `lookat`, with `vup` upwards, vertical
/// field of view `vfov` (degrees), width over height `aspect`, lens diameter
/// `aperture` and focus distance `focus_dist`, all in fixed point.
pub open spec fn camera_spec(lookfrom: Vec3, lookat: Vec3, vup: Vec3, vfov: int, aspect: int, aperture: int, focus_dist: int) -> Camera {
    let hh = half_height(vfov);
    let hw = smul(aspect, hh);
    let w = vunit(vsub(lookfrom, lookat));
    let u = vunit(vcross(vup, w));
    let v = vcross(w, u);
    Camera {
        origin: lookfrom,
        lower_left_corner: vsub(vsub(vsub(lookfrom, vscale(u, smul(hw, focus_dist))), vscale(v, smul(hh, focus_dist))), vscale(w, focus_dist)),
        horizontal: vscale(u, ssat(2 * smul(hw, focus_dist))),
        vertical: vscale(v, ssat(2 * smul(hh, focus_dist))),
        u,
        v,
        w,
        lens_radius: (aperture / 2) as i64,
    }
}

/// The ray through image-plane point `(s, t)` from the lens point `rd` (a point
/// of the unit disk, scaled by the lens radius).
pub open spec fn ray_through(c: Camera, s: int, t: int, disk: Vec3) -> Ray {
    let rd = vscale(disk, c.lens_radius as int);
    let offset = vadd(vscale(c.u, rd.x as int), vscale(c.v, rd.y as int));
    Ray {
        a: vadd(c.origin, offset),
        b: vsub(vsub(vadd(vadd(c.lower_left_corner, vscale(c.horizontal, s)), vscale(c.vertical, t)), c.origin), offset),
        time: 0,
    }
}

pub open spec fn in_unit_disk(p: Vec3) -> bool {
    p.z == 0 && vdot(p, p) < ONE
}

/// The point `(x, y, 0)` if it lies in the open unit disk, else none.
pub fn accept_in_disk(x: i64, y: i64) -> (r: Option<Vec3>)
    requires
        -ONE <= x <= ONE,
        -ONE <= y <= ONE,
    ensures
        r == (if x * x + y * y < ONE * ONE { Some(Vec3 { x, y, z: 0 }) } else { None::<Vec3> }),
{
    proof {
        crate::fixed::lemma_mul_bounded(x as int, x as int, ONE as int, ONE as int);
        crate::fixed::lemma_mul_bounded(y as int, y as int, ONE as int, ONE as int);
    }
    if (x as i128) * (x as i128) + (y as i128) * (y as i128) < (ONE as i128) * (ONE as i128) {
        Some(Vec3 { x, y, z: 0 })
    } else {
        None
    }
}

/// A uniformly drawn point of the unit disk, by rejection from the square
/// `[-1, 1)^2` (see `accept_in_disk`); after 64 rejections in a row the centre.
pub fn random_in_unit_disk() -> (p: Vec3)
    ensures
        p.wf(),
        in_unit_disk(p),
{
    let mut tries: u32 = 0;
    while tries < 64
        decreases 64 - tries,
    {
        let x = random_below(2 * ONE as u64) as i64 - ONE;
        let y = random_below(2 * ONE as u64) as i64 - ONE;
        if let Some(p) = accept_in_disk(x, y) {
            proof {
                vstd::arithmetic::div_mod::lemma_div_is_ordered(x * x + y * y, ONE * ONE - 1, ONE as int);
                assert(p.x * p.x + p.y * p.y + p.z * p.z == x * x + y * y);
            }
            return p;
        }
        tries = tries + 1;
    }
    Vec3::zero()
}

impl Camera {
    pub open spec fn wf(&self) -> bool {
        &&& self.origin.wf() && self.lower_left_corner.wf() && self.horizontal.wf() && self.vertical.wf()
        &&& self.u.wf() && self.v.wf() && self.w.wf()
    }

    pub fn new(lookfrom: Vec3, lookat: Vec3, vup: Vec3, vfov: i64, aspect: i64, aperture: i64, focus_dist: i64) -> (c: Camera)
        requires
            lookfrom.wf(),
            lookat.wf(),
            vup.wf(),
            0 <= vfov,
            0 <= aperture,
        ensures
            c == camera_spec(lookfrom, lookat, vup, vfov as int, aspect as int, aperture as int, focus_dist as int),
            c.wf(),
    {
        let theta = mul_fx(vfov, PI) / 180;
        proof {
            vstd::arithmetic::div_mod::lemma_div_pos_is_pos(vfov * PI, ONE as int);
        }
        let s = sin_fx(theta / 2);
        let co = cos_fx(theta / 2);
        let half_height = if co > 0 { quot_fx(s, co) } else { SMAX };
        let half_width = mul_fx(aspect, half_height);
        let w = unit_vector(&lookfrom.sub(&lookat));
        let u = unit_vector(&cross(&vup, &w));
        let v = cross(&w, &u);
        let hwf = mul_fx(half_width, focus_dist);
        let hhf = mul_fx(half_height, focus_dist);
        let lower_left_corner = lookfrom.sub(&u.scale(hwf)).sub(&v.scale(hhf)).sub(&w.scale(focus_dist));
        let horizontal = u.scale(crate::fixed::ssaturate(2 * hwf as i128));
        let vertical = v.scale(crate::fixed::ssaturate(2 * hhf as i128));
        Camera { origin: lookfrom, lower_left_corner, horizontal, vertical, u, v, w, lens_radius: aperture / 2 }
    }

    /// The ray through image-plane point `(s, t)` from lens point `disk`.
    pub fn get_ray_with(&self, s: i64, t: i64, disk: &Vec3) -> (r: Ray)
        requires
            self.wf(),
            disk.wf(),
        ensures
            r == ray_through(*self, s as int, t as int, *disk),
            r.wf(),
    {
        let rd = disk.scale(self.lens_radius);
        let offset = self.u.scale(rd.x).add(&self.v.scale(rd.y));
        let dir = self.lower_left_corner.add(&self.horizontal.scale(s)).add(&self.vertical.scale(t)).sub(&self.origin).sub(&offset);
        Ray::new(&self.origin.add(&offset), &dir)
    }

    /// The ray through image-plane point `(s, t)`, from a random point of the lens.
    pub fn get_ray(&self, s: i64, t: i64) -> (r: Ray)
        requires
            self.wf(),
        ensures
            exists|disk: Vec3| disk.wf() && in_unit_disk(disk) && r == ray_through(*self, s as int, t as int, disk),
            r.wf(),
    {
        let disk = random_in_unit_disk();
        self.get_ray_with(s, t, &disk)
    }
}

} // verus!
