//! Materials: how a surface scatters and emits light.
use vstd::prelude::*;
use crate::fixed::{add_fx, fmul, fquot, mul_fx, quot_fx, sqrt_fx, ssat, is_isqrt, LIM, ONE, SMAX};
use crate::hitable::HitRecord;
use crate::ray::Ray;
use crate::rng::random_below;
use crate::texture::{lemma_texture_value, texture_bounded, texture_value, texture_wf, vec_within, Texture};
use crate::vec::{
    dot, lemma_isqrt_unique, sqrt_floor, unit_vector, vadd, vdot, vlen, vneg, vscale, vsub, vunit, zero, Vec3,
};

verus! {

/// A material, shared by index among the surfaces that use it.
pub enum Material {
    Lambertian(Lambertian),
    Metal(Metal),
    Dielectric(Dielectric),
    DiffuseLight(DiffuseLight),
}

/// A diffuse surface: it scatters in every direction alike.
pub struct Lambertian {
    pub albedo: Texture,
}

/// A reflecting surface, blurred by `fuzz` in `[0, 1]`.
pub struct Metal {
    pub albedo: Vec3,
    pub fuzz: i64,
}

/// A clear refracting surface of index `ref_idx`.
pub struct Dielectric {
    pub ref_idx: i64,
}

/// A surface that emits light and scatters none.
pub struct DiffuseLight {
    pub emit: Texture,
}

pub open spec fn smul(a: int, b: int) -> int {
    ssat(fmul(a, b))
}

pub open spec fn squot(a: int, b: int) -> int {
    ssat(fquot(a, b))
}

/// A point of the open unit ball.
pub open spec fn in_unit_ball(p: Vec3) -> bool {
    vdot(p, p) < ONE
}

/// `v` reflected about the normal `n`: `v - 2 (v . n) n`.
pub open spec fn reflect_spec(v: Vec3, n: Vec3) -> Vec3 {
    vsub(v, vscale(n, 2 * vdot(v, n)))
}

/// The term under the root of Snell's law for the unit direction of `v`.
pub open spec fn refract_disc(v: Vec3, n: Vec3, ni_over_nt: int) -> int {
    let dt = vdot(vunit(v), n);
    ssat(ONE - smul(smul(ni_over_nt, ni_over_nt), ssat(ONE - smul(dt, dt))))
}

/// The refracted direction, if the term under the root is positive:
/// `ni_over_nt (u - n dt) - n sqrt(disc)` for the unit direction `u` of `v`.
pub open spec fn refract_spec(v: Vec3, n: Vec3, ni_over_nt: int) -> Option<Vec3> {
    let uv = vunit(v);
    let dt = vdot(uv, n);
    let disc = refract_disc(v, n, ni_over_nt);
    if disc > 0 {
        Some(vsub(vscale(vsub(uv, vscale(n, dt)), ni_over_nt), vscale(n, sqrt_floor(disc * ONE))))
    } else {
        None
    }
}

pub open spec fn pow5(x: int) -> int {
    smul(smul(smul(smul(x, x), x), x), x)
}

/// Schlick's approximation of the reflectance at incidence cosine `cosine`.
pub open spec fn schlick_spec(cosine: int, ref_idx: int) -> int {
    let q = squot(ONE - ref_idx, ONE + ref_idx);
    let r0 = smul(q, q);
    ssat(r0 + smul(ssat(ONE - r0), pow5(ssat(ONE - cosine))))
}

/// The normal facing the incoming ray, the ratio of indices and the cosine of
/// incidence, from which side the ray arrives.
pub open spec fn dielectric_setup(d: Dielectric, r_in: Ray, rec: HitRecord) -> (Vec3, int, int) {
    let ddn = vdot(r_in.b, rec.normal);
    let len = vlen(r_in.b);
    if ddn > 0 {
        (vneg(rec.normal), d.ref_idx as int, if len == 0 { 0 } else { squot(smul(d.ref_idx as int, ddn), len) })
    } else {
        (rec.normal, squot(ONE as int, d.ref_idx as int), if len == 0 { 0 } else { squot(-ddn, len) })
    }
}

/// The probability (in fixed point) of reflecting rather than refracting: one
/// under total internal reflection, else Schlick's reflectance.
pub open spec fn reflect_prob(d: Dielectric, r_in: Ray, rec: HitRecord) -> int {
    let (outward, ni, cosine) = dielectric_setup(d, r_in, rec);
    match refract_spec(r_in.b, outward, ni) {
        Some(_) => schlick_spec(cosine, d.ref_idx as int),
        None => ONE as int,
    }
}

/// The dielectric's scattered ray for the uniform draw `draw` in `[0, 1)`:
/// reflected when `draw` is below the reflection probability, else refracted.
pub open spec fn dielectric_ray(d: Dielectric, r_in: Ray, rec: HitRecord, draw: int) -> Ray {
    let (outward, ni, cosine) = dielectric_setup(d, r_in, rec);
    let reflected = reflect_spec(r_in.b, rec.normal);
    if draw < reflect_prob(d, r_in, rec) {
        Ray { a: rec.p, b: reflected, time: r_in.time }
    } else {
        match refract_spec(r_in.b, outward, ni) {
            Some(refracted) => Ray { a: rec.p, b: refracted, time: r_in.time },
            None => Ray { a: rec.p, b: reflected, time: r_in.time },
        }
    }
}

pub open spec fn white() -> Vec3 {
    Vec3 { x: ONE, y: ONE, z: ONE }
}

/// What the material does with a ray arriving at a hit: the attenuation and the
/// scattered ray, or none when the ray is absorbed. `sample` is a point of the
/// unit ball and `draw` a uniform value in `[0, 1)`.
pub open spec fn scatter_spec(m: Material, r_in: Ray, rec: HitRecord, sample: Vec3, draw: int) -> Option<(Vec3, Ray)> {
    match m {
        Material::Lambertian(l) => {
            let target = vadd(vadd(rec.p, rec.normal), sample);
            Some((
                texture_value(l.albedo, rec.u as int, rec.v as int, rec.p),
                Ray { a: rec.p, b: vsub(target, rec.p), time: r_in.time },
            ))
        },
        Material::Metal(mt) => {
            let reflected = reflect_spec(vunit(r_in.b), rec.normal);
            let dir = vadd(reflected, vscale(sample, mt.fuzz as int));
            if vdot(dir, rec.normal) > 0 {
                Some((mt.albedo, Ray { a: rec.p, b: dir, time: r_in.time }))
            } else {
                None
            }
        },
        Material::Dielectric(d) => Some((white(), dielectric_ray(d, r_in, rec, draw))),
        Material::DiffuseLight(_) => None,
    }
}

/// The light the material emits at a point: zero but for a light.
pub open spec fn emitted_spec(m: Material, u: int, v: int, p: Vec3) -> Vec3 {
    match m {
        Material::DiffuseLight(l) => texture_value(l.emit, u, v, p),
        _ => zero(),
    }
}

pub open spec fn vec_in(c: Vec3, lo: int, hi: int) -> bool {
    lo <= c.x <= hi && lo <= c.y <= hi && lo <= c.z <= hi
}

/// The material emits within `e`, channel by channel, and scatters nothing, or
/// it emits nothing and attenuates each channel by at most one.
pub open spec fn material_bounded(m: Material, e: Vec3) -> bool {
    match m {
        Material::Lambertian(l) => texture_bounded(l.albedo, white()),
        Material::Metal(mt) => vec_within(mt.albedo, white()),
        Material::Dielectric(_) => true,
        Material::DiffuseLight(l) => texture_bounded(l.emit, e),
    }
}

/// Scattering gives a valid attenuation and ray; a bounded material emits
/// within `[0, e]`, and when it scatters it emits nothing and attenuates by at
/// most one.
pub proof fn lemma_scatter_props(m: Material, r_in: Ray, rec: HitRecord, sample: Vec3, draw: int, e: Vec3)
    requires
        0 <= e.x && 0 <= e.y && 0 <= e.z,
        m.wf(),
        r_in.wf(),
        rec.p.wf(),
        rec.normal.wf(),
        sample.wf(),
    ensures
        emitted_spec(m, rec.u as int, rec.v as int, rec.p).wf(),
        match scatter_spec(m, r_in, rec, sample, draw) {
            Some((att, ray)) => att.wf() && ray.wf(),
            None => true,
        },
        material_bounded(m, e) ==> vec_within(emitted_spec(m, rec.u as int, rec.v as int, rec.p), e),
        material_bounded(m, e) ==> match scatter_spec(m, r_in, rec, sample, draw) {
            Some((att, _)) => vec_within(att, white()) && emitted_spec(m, rec.u as int, rec.v as int, rec.p) == zero(),
            None => true,
        },
{
    match m {
        Material::Lambertian(l) => {
            lemma_texture_value(l.albedo, rec.u as int, rec.v as int, rec.p, white());
        },
        Material::DiffuseLight(l) => {
            lemma_texture_value(l.emit, rec.u as int, rec.v as int, rec.p, e);
        },
        Material::Dielectric(d) => {
            let (outward, ni, cosine) = dielectric_setup(d, r_in, rec);
            assert(outward.wf());
        },
        _ => {},
    }
}

/// Returns the reflection of `v` about the normal `n`.
pub fn reflect(v: &Vec3, n: &Vec3) -> (r: Vec3)
    requires
        v.wf(),
        n.wf(),
    ensures
        r == reflect_spec(*v, *n),
        r.wf(),
{
    v.sub(&n.scale(2 * dot(v, n)))
}

/// The refracted direction of `v` through a surface with normal `n`, or none
/// under total internal reflection.
pub fn refract(v: &Vec3, n: &Vec3, ni_over_nt: i64) -> (r: Option<Vec3>)
    requires
        v.wf(),
        n.wf(),
    ensures
        r == refract_spec(*v, *n, ni_over_nt as int),
        match r {
            Some(d) => d.wf(),
            None => true,
        },
{
    let uv = unit_vector(v);
    let dt = dot(&uv, n);
    let ni2 = mul_fx(ni_over_nt, ni_over_nt);
    let disc = add_fx(ONE, -mul_fx(ni2, add_fx(ONE, -mul_fx(dt, dt))));
    if disc > 0 {
        let s = sqrt_fx(disc);
        proof {
            lemma_isqrt_unique(disc * ONE, s as int);
        }
        Some(uv.sub(&n.scale(dt)).scale(ni_over_nt).sub(&n.scale(s)))
    } else {
        None
    }
}

/// Schlick's approximation of the reflectance.
pub fn schlick(cosine: i64, ref_idx: i64) -> (r: i64)
    requires
        0 < ref_idx <= 16 * ONE,
    ensures
        r == schlick_spec(cosine as int, ref_idx as int),
{
    let q = quot_fx(ONE - ref_idx, ONE + ref_idx);
    let r0 = mul_fx(q, q);
    let x = crate::fixed::ssaturate(ONE as i128 - cosine as i128);
    let p = mul_fx(mul_fx(mul_fx(mul_fx(x, x), x), x), x);
    add_fx(r0, mul_fx(add_fx(ONE, -r0), p))
}

/// The point `(x, y, z)` if it lies in the open unit ball, else none.
pub fn accept_in_ball(x: i64, y: i64, z: i64) -> (r: Option<Vec3>)
    requires
        -ONE <= x <= ONE,
        -ONE <= y <= ONE,
        -ONE <= z <= ONE,
    ensures
        r == (if x * x + y * y + z * z < ONE * ONE { Some(Vec3 { x, y, z }) } else { None::<Vec3> }),
{
    proof {
        crate::fixed::lemma_mul_bounded(x as int, x as int, ONE as int, ONE as int);
        crate::fixed::lemma_mul_bounded(y as int, y as int, ONE as int, ONE as int);
        crate::fixed::lemma_mul_bounded(z as int, z as int, ONE as int, ONE as int);
    }
    if (x as i128) * (x as i128) + (y as i128) * (y as i128) + (z as i128) * (z as i128) < (ONE as i128) * (ONE as i128) {
        Some(Vec3 { x, y, z })
    } else {
        None
    }
}

/// A uniformly drawn point of the unit ball, by rejection from the cube
/// `[-1, 1)^3` (see `accept_in_ball`); after 64 rejections in a row (which a
/// fair source all but never gives) the centre.
pub fn random_in_unit_sphere() -> (p: Vec3)
    ensures
        p.wf(),
        in_unit_ball(p),
{
    let mut tries: u32 = 0;
    while tries < 64
        decreases 64 - tries,
    {
        let x = random_below(2 * ONE as u64) as i64 - ONE;
        let y = random_below(2 * ONE as u64) as i64 - ONE;
        let z = random_below(2 * ONE as u64) as i64 - ONE;
        if let Some(p) = accept_in_ball(x, y, z) {
            proof {
                vstd::arithmetic::div_mod::lemma_div_is_ordered(x * x + y * y + z * z, ONE * ONE - 1, ONE as int);
                assert(p.x * p.x + p.y * p.y + p.z * p.z == x * x + y * y + z * z);
            }
            return p;
        }
        tries = tries + 1;
    }
    Vec3::zero()
}

impl Lambertian {
    pub fn new(albedo: Texture) -> (l: Lambertian)
        ensures
            l.albedo == albedo,
    {
        Lambertian { albedo }
    }

    /// A diffuse material of one colour.
    pub fn constant(albedo: Vec3) -> (l: Lambertian)
        ensures
            l.albedo == Texture::Constant(crate::texture::ConstantTexture { color: albedo }),
    {
        Lambertian { albedo: Texture::Constant(crate::texture::ConstantTexture::new(albedo)) }
    }
}

impl Metal {
    /// A metal; the fuzz is held to `[0, 1]`.
    pub fn new(albedo: Vec3, fuzz: i64) -> (m: Metal)
        ensures
            m.albedo == albedo,
            m.fuzz == (if fuzz > ONE { ONE as int } else if fuzz < 0 { 0 } else { fuzz as int }),
    {
        let f = if fuzz > ONE { ONE } else if fuzz < 0 { 0 } else { fuzz };
        Metal { albedo, fuzz: f }
    }
}

impl Dielectric {
    pub fn new(ref_idx: i64) -> (d: Dielectric)
        ensures
            d.ref_idx == ref_idx,
    {
        Dielectric { ref_idx }
    }

    /// The reflection probability of the ray arriving at the hit.
    pub fn reflect_probability(&self, r_in: &Ray, rec: &HitRecord) -> (prob: i64)
        requires
            0 < self.ref_idx <= 16 * ONE,
            r_in.wf(),
            rec.normal.wf(),
        ensures
            prob == reflect_prob(*self, *r_in, *rec),
    {
        let (outward, ni, cosine) = self.setup(r_in, rec);
        match refract(&r_in.b, &outward, ni) {
            Some(_) => schlick(cosine, self.ref_idx),
            None => ONE,
        }
    }

    fn setup(&self, r_in: &Ray, rec: &HitRecord) -> (res: (Vec3, i64, i64))
        requires
            0 < self.ref_idx <= 16 * ONE,
            r_in.wf(),
            rec.normal.wf(),
        ensures
            res.0 == dielectric_setup(*self, *r_in, *rec).0,
            res.1 == dielectric_setup(*self, *r_in, *rec).1,
            res.2 == dielectric_setup(*self, *r_in, *rec).2,
            res.0.wf(),
    {
        let ddn = dot(&r_in.b, &rec.normal);
        let len = r_in.b.length();
        if ddn > 0 {
            let c = if len == 0 { 0 } else { quot_fx(mul_fx(self.ref_idx, ddn), len) };
            (rec.normal.neg(), self.ref_idx, c)
        } else {
            let c = if len == 0 { 0 } else { quot_fx(-ddn, len) };
            (rec.normal, quot_fx(ONE, self.ref_idx), c)
        }
    }

    /// Reflects or refracts the ray by comparing the uniform draw `draw` with
    /// the reflection probability; the attenuation is always white.
    pub fn scatter_with(&self, r_in: &Ray, rec: &HitRecord, draw: i64) -> (res: (Vec3, Ray))
        requires
            0 < self.ref_idx <= 16 * ONE,
            r_in.wf(),
            rec.normal.wf(),
        ensures
            res.0 == white(),
            res.1 == dielectric_ray(*self, *r_in, *rec, draw as int),
    {
        let (outward, ni, cosine) = self.setup(r_in, rec);
        let reflected = reflect(&r_in.b, &rec.normal);
        let refracted = refract(&r_in.b, &outward, ni);
        let prob = match refracted {
            Some(_) => schlick(cosine, self.ref_idx),
            None => ONE,
        };
        let attenuation = Vec3 { x: ONE, y: ONE, z: ONE };
        if draw < prob {
            (attenuation, Ray::with_time(&rec.p, &reflected, r_in.time))
        } else {
            match refracted {
                Some(d) => (attenuation, Ray::with_time(&rec.p, &d, r_in.time)),
                None => (attenuation, Ray::with_time(&rec.p, &reflected, r_in.time)),
            }
        }
    }
}

/// Under total internal reflection the dielectric reflects, whatever the draw:
/// the reflection probability is one.
pub proof fn lemma_total_internal_reflection(d: Dielectric, r_in: Ray, rec: HitRecord, draw: int)
    requires
        refract_disc(r_in.b, dielectric_setup(d, r_in, rec).0, dielectric_setup(d, r_in, rec).1) <= 0,
        0 <= draw < ONE,
    ensures
        reflect_prob(d, r_in, rec) == ONE,
        dielectric_ray(d, r_in, rec, draw).b == reflect_spec(r_in.b, rec.normal),
{
}

impl DiffuseLight {
    pub fn new(emit: Texture) -> (l: DiffuseLight)
        ensures
            l.emit == emit,
    {
        DiffuseLight { emit }
    }
}

impl Material {
    pub open spec fn wf(&self) -> bool {
        match *self {
            Material::Lambertian(l) => texture_wf(l.albedo),
            Material::Metal(m) => m.albedo.wf() && 0 <= m.fuzz <= ONE,
            Material::Dielectric(d) => 0 < d.ref_idx <= 16 * ONE,
            Material::DiffuseLight(l) => texture_wf(l.emit),
        }
    }

    /// What the material does with a ray arriving at a hit, for the unit-ball
    /// point `sample` and the uniform draw `draw`.
    pub fn scatter_with(&self, r_in: &Ray, rec: &HitRecord, sample: &Vec3, draw: i64) -> (res: Option<(Vec3, Ray)>)
        requires
            self.wf(),
            r_in.wf(),
            rec.p.wf(),
            rec.normal.wf(),
            sample.wf(),
        ensures
            res == scatter_spec(*self, *r_in, *rec, *sample, draw as int),
    {
        match self {
            Material::Lambertian(l) => {
                let target = rec.p.add(&rec.normal).add(sample);
                let attenuation = l.albedo.value(rec.u, rec.v, &rec.p);
                Some((attenuation, Ray::with_time(&rec.p, &target.sub(&rec.p), r_in.time)))
            },
            Material::Metal(m) => {
                let reflected = reflect(&unit_vector(&r_in.b), &rec.normal);
                let dir = reflected.add(&sample.scale(m.fuzz));
                if dot(&dir, &rec.normal) > 0 {
                    Some((m.albedo, Ray::with_time(&rec.p, &dir, r_in.time)))
                } else {
                    None
                }
            },
            Material::Dielectric(d) => Some(d.scatter_with(r_in, rec, draw)),
            Material::DiffuseLight(_) => None,
        }
    }

    /// Scatters with freshly drawn randomness: the result is that of
    /// `scatter_with` for some point of the unit ball and some draw in `[0, 1)`.
    pub fn scatter(&self, r_in: &Ray, rec: &HitRecord) -> (res: Option<(Vec3, Ray)>)
        requires
            self.wf(),
            r_in.wf(),
            rec.p.wf(),
            rec.normal.wf(),
        ensures
            exists|sample: Vec3, draw: int|
                sample.wf() && in_unit_ball(sample) && 0 <= draw < ONE && res == scatter_spec(
                    *self,
                    *r_in,
                    *rec,
                    sample,
                    draw,
                ),
    {
        match self {
            Material::Dielectric(_) => {
                let draw = random_below(ONE as u64) as i64;
                let z = Vec3::zero();
                self.scatter_with(r_in, rec, &z, draw)
            },
            Material::DiffuseLight(_) => {
                let z = Vec3::zero();
                self.scatter_with(r_in, rec, &z, 0)
            },
            _ => {
                let sample = random_in_unit_sphere();
                self.scatter_with(r_in, rec, &sample, 0)
            },
        }
    }

    /// The light emitted at a point of the surface.
    pub fn emitted(&self, u: i64, v: i64, p: &Vec3) -> (c: Vec3)
        requires
            self.wf(),
            p.wf(),
        ensures
            c == emitted_spec(*self, u as int, v as int, *p),
            c.wf(),
    {
        match self {
            Material::DiffuseLight(l) => l.emit.value(u, v, p),
            _ => Vec3::zero(),
        }
    }
}

} // verus!
