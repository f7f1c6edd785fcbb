//! The radiance estimator and the conversion of an estimate to an 8-bit pixel.
use vstd::prelude::*;
use crate::fixed::{div_floor, fmul, isqrt, is_isqrt, LIM, ONE};
use crate::hitable::{hit_spec, hitable_wf, HitRecord, Hitable};
use crate::material::{emitted_spec, in_unit_ball, lemma_scatter_props, material_bounded, scatter_spec, vec_in, Material};
use crate::texture::vec_within;
use crate::camera::{in_unit_disk, ray_through, Camera};
use crate::ray::Ray;
use crate::rng::random_below;
use crate::vec::{lemma_isqrt_unique, sqrt_floor, unit_vector, vadd, vmul, vscale, vunit, zero, Vec3};

verus! {

/// Paths end after this many bounces.
pub const MAX_DEPTH: u32 = 50;

/// The smallest parameter at which a hit counts (about 0.001), so that a ray
/// leaving a surface does not hit that surface again.
pub const T_EPS: i64 = 66;

/// The parameter that stands for "no upper bound".
pub const T_INF: i64 = 0x7fff_ffff_ffff_ffff;

/// The scene: the surfaces (usually one hierarchy), the materials they refer to
/// by index, and whether the background is a sky gradient or black.
pub struct World {
    pub root: Hitable,
    pub materials: Vec<Material>,
    pub sky: bool,
}

/// The sky's colour at the zenith, `(0.5, 0.7, 1.0)`.
pub open spec fn sky_blue() -> Vec3 {
    Vec3 { x: 32768, y: 45875, z: 65536 }
}

/// The sky gradient for direction `d`: `(1 - t) white + t blue` with
/// `t = (y + 1) / 2` for the unit direction's `y`.
pub open spec fn sky_color(d: Vec3) -> Vec3 {
    let t = (vunit(d).y + ONE) / 2;
    vadd(vscale(Vec3 { x: ONE, y: ONE, z: ONE }, ONE - t), vscale(sky_blue(), t))
}

pub open spec fn background(w: World, r: Ray) -> Vec3 {
    if w.sky {
        sky_color(r.b)
    } else {
        zero()
    }
}

/// The light emitted where the ray hits; a hit whose material index names no
/// material emits nothing.
pub open spec fn emitted_at(w: World, rec: HitRecord) -> Vec3 {
    if rec.mat < w.materials@.len() {
        emitted_spec(w.materials@[rec.mat as int], rec.u as int, rec.v as int, rec.p)
    } else {
        zero()
    }
}

/// Every material either emits within `e` (channel by channel) and scatters
/// nothing, or emits nothing and attenuates each channel by at most one; the
/// background lies within `e` too.
pub open spec fn energy_bounded(w: World, e: Vec3) -> bool {
    &&& forall|i: int| 0 <= i < w.materials@.len() ==> #[trigger] material_bounded(w.materials@[i], e)
    &&& (w.sky ==> ONE <= e.x && ONE <= e.y && ONE <= e.z)
    &&& 0 <= e.x <= LIM && 0 <= e.y <= LIM && 0 <= e.z <= LIM
}

impl World {
    pub open spec fn wf(&self) -> bool {
        &&& hitable_wf(self.root)
        &&& forall|i: int| 0 <= i < self.materials@.len() ==> #[trigger] self.materials@[i].wf()
    }

    /// The nearest hit of the ray in the scene over `(T_EPS, T_INF)`.
    pub fn hit(&self, r: &Ray) -> (res: Option<HitRecord>)
        requires
            self.wf(),
            r.wf(),
        ensures
            res == hit_spec(self.root, *r, T_EPS as int, T_INF as int),
            res == world_hit(*self, *r),
            match res {
                Some(rec) => rec.p.wf() && rec.normal.wf(),
                None => true,
            },
    {
        proof {
            reveal(world_hit);
        }
        self.root.hit(r, T_EPS, T_INF)
    }

    /// The background seen along a ray that hits nothing.
    pub fn background(&self, r: &Ray) -> (c: Vec3)
        requires
            r.wf(),
        ensures
            c == background(*self, *r),
            c.wf(),
    {
        if self.sky {
            let unit = unit_vector(&r.b);
            proof {
                crate::vec::lemma_unit_bounded(r.b);
            }
            let t = (unit.y + ONE) / 2;
            let white = Vec3 { x: ONE, y: ONE, z: ONE };
            let blue = Vec3 { x: 32768, y: 45875, z: 65536 };
            white.scale(ONE - t).add(&blue.scale(t))
        } else {
            Vec3::zero()
        }
    }
}

/// The sky's colours lie in `[0, 1]`.
proof fn lemma_sky_bounded(d: Vec3)
    requires
        d.wf(),
    ensures
        vec_in(sky_color(d), 0, ONE as int),
{
    crate::vec::lemma_unit_bounded(d);
    let t = (vunit(d).y + ONE) / 2;
    assert(0 <= t <= ONE);
    lemma_fmul_bounded(t, 32768, ONE as int);
    lemma_fmul_bounded(t, 45875, ONE as int);
    lemma_fmul_bounded(t, 65536, ONE as int);
    lemma_fmul_le(t, 32768);
    lemma_fmul_le(t, 45875);
    lemma_fmul_le(t, 65536);
    assert(fmul(ONE - t, ONE as int) == ONE - t) by {
        vstd::arithmetic::div_mod::lemma_div_by_multiple(ONE - t, ONE as int);
    }
}

proof fn lemma_fmul_le(t: int, b: int)
    requires
        0 <= t,
        0 <= b <= ONE,
    ensures
        fmul(t, b) <= t,
{
    assert(t * b <= t * ONE) by (nonlinear_arith) requires 0 <= t, b <= ONE;
    vstd::arithmetic::div_mod::lemma_div_is_ordered(t * b, t * ONE, ONE as int);
    vstd::arithmetic::div_mod::lemma_div_by_multiple(t, ONE as int);
}

proof fn lemma_fmul_bounded(a: int, c: int, e: int)
    requires
        0 <= a <= ONE,
        0 <= c <= e,
    ensures
        0 <= fmul(a, c) <= e,
{
    assert(0 <= a * c <= ONE * e) by (nonlinear_arith)
        requires 0 <= a <= ONE, 0 <= c <= e;
    vstd::arithmetic::div_mod::lemma_div_pos_is_pos(a * c, ONE as int);
    vstd::arithmetic::div_mod::lemma_div_is_ordered(a * c, ONE * e, ONE as int);
    vstd::arithmetic::div_mod::lemma_div_by_multiple(e, ONE as int);
    assert(ONE * e == e * ONE) by (nonlinear_arith);
}

/// No material of the scene emits light.
pub open spec fn no_emitters(w: World) -> bool {
    forall|i: int| 0 <= i < w.materials@.len() ==> !(#[trigger] w.materials@[i] is DiffuseLight)
}

/// The 8-bit value of a linear channel: its square root (gamma 2) times 255.99,
/// truncated and held to `[0, 255]`.
pub open spec fn quantize_spec(c: int) -> int {
    let g = if c <= 0 { 0 } else { sqrt_floor(c * ONE) };
    let q = (g * 25599) / (100 * ONE);
    if q > 255 { 255 } else { q }
}

/// The 8-bit value of a linear channel.
pub fn quantize(c: i64) -> (q: u8)
    requires
        c <= LIM,
    ensures
        q == quantize_spec(c as int),
{
    let g: i128 = if c <= 0 {
        0
    } else {
        assert(0 < c * ONE <= 0x400_0000_0000) by (nonlinear_arith)
            requires 0 < c <= 0x400_0000;
        let n: i128 = c as i128 * ONE as i128;
        let s = isqrt(n);
        proof {
            lemma_isqrt_unique(c * ONE, s as int);
            if s > 0x4000_0000 {
                assert(s * s > 0x400_0000_0000) by (nonlinear_arith)
                    requires s > 0x4000_0000;
            }
        }
        s
    };
    assert(0 <= g * 25599 <= 0x4000_0000 * 25599) by (nonlinear_arith)
        requires 0 <= g <= 0x4000_0000;
    let q = div_floor(g * 25599, 100 * ONE as i128);
    proof {
        vstd::arithmetic::div_mod::lemma_div_pos_is_pos(g * 25599, 100 * ONE as int);
    }
    if q > 255 {
        255
    } else {
        q as u8
    }
}

/// `c` is a value the estimator can give for the ray `r` at recursion depth
/// `depth`: the background on a miss; black where the hit's material index
/// names no material; the emitted light alone at the depth limit; otherwise,
/// for some unit-ball point and uniform draw, the emitted light plus the
/// attenuation times a value the estimator can give for the scattered ray at
/// the next depth, or the emitted light alone when the material absorbs.
pub open spec fn color_ok(w: World, r: Ray, depth: int, c: Vec3) -> bool
    decreases MAX_DEPTH - depth,
{
    match world_hit(w, r) {
        None => c == background(w, r),
        Some(rec) => if rec.mat >= w.materials@.len() {
            c == zero()
        } else if depth >= MAX_DEPTH {
            c == emitted_at(w, rec)
        } else {
            exists|sample: Vec3, draw: int|
                sample.wf() && in_unit_ball(sample) && 0 <= draw < ONE && match #[trigger] scatter_spec(
                    w.materials@[rec.mat as int],
                    r,
                    rec,
                    sample,
                    draw,
                ) {
                    Some((att, scattered)) => exists|rest: Vec3|
                        rest.wf() && color_ok(w, scattered, depth + 1, rest) && c == vadd(
                            emitted_at(w, rec),
                            #[trigger] vmul(att, rest),
                        ),
                    None => c == emitted_at(w, rec),
                }
        },
    }
}

/// The nearest hit of the ray in the scene over `[T_EPS, T_INF]`.
#[verifier::opaque]
pub open spec fn world_hit(w: World, r: Ray) -> Option<HitRecord> {
    hit_spec(w.root, r, T_EPS as int, T_INF as int)
}

proof fn lemma_color_ok_step(w: World, r: Ray, depth: int, c: Vec3, rec: HitRecord, sample: Vec3, draw: int, rest: Vec3)
    requires
        world_hit(w, r) == Some(rec),
        rec.mat < w.materials@.len(),
        depth < MAX_DEPTH,
        sample.wf(),
        in_unit_ball(sample),
        0 <= draw < ONE,
        scatter_spec(w.materials@[rec.mat as int], r, rec, sample, draw) is Some,
        rest.wf(),
        color_ok(w, scatter_spec(w.materials@[rec.mat as int], r, rec, sample, draw).unwrap().1, depth + 1, rest),
        c == vadd(emitted_at(w, rec), vmul(scatter_spec(w.materials@[rec.mat as int], r, rec, sample, draw).unwrap().0, rest)),
    ensures
        color_ok(w, r, depth, c),
{
    let sc = scatter_spec(w.materials@[rec.mat as int], r, rec, sample, draw);
    let att = sc.unwrap().0;
    let next = sc.unwrap().1;
    assert(sc == Some((att, next)));
    assert(color_ok(w, next, depth + 1, rest));
}

/// The radiance arriving along `r`, estimated by following one random path: the
/// background if the ray hits nothing; else the light emitted at the hit, plus,
/// while `depth` is below `MAX_DEPTH` and the material scatters, the attenuation
/// times the estimate along the scattered ray.
#[verifier::rlimit(80)]
pub fn color(r: &Ray, world: &World, depth: u32) -> (c: Vec3)
    requires
        world.wf(),
        r.wf(),
    ensures
        c.wf(),
        color_ok(*world, *r, depth as int, c),
        forall|e: Vec3| energy_bounded(*world, e) ==> vec_within(c, e),
        depth >= MAX_DEPTH && no_emitters(*world) && !world.sky ==> c == zero(),
    decreases MAX_DEPTH - depth,
{
    match world.hit(r) {
        None => {
            let b = world.background(r);
            proof {
                if world.sky {
                    lemma_sky_bounded(r.b);
                }
                assert forall|e: Vec3| energy_bounded(*world, e) implies vec_within(b, e) by {}
            }
            b
        },
        Some(rec) => {
            if rec.mat >= world.materials.len() {
                return Vec3::zero();
            }
            let m = &world.materials[rec.mat];
            let emitted = m.emitted(rec.u, rec.v, &rec.p);
            assert(world.materials@[rec.mat as int].wf());
            if depth >= MAX_DEPTH {
                proof {
                    assert forall|e: Vec3| energy_bounded(*world, e) implies vec_within(emitted, e) by {
                        assert(material_bounded(world.materials@[rec.mat as int], e));
                        lemma_scatter_props(*m, *r, rec, zero(), 0, e);
                    }
                }
                return emitted;
            }
            let s = m.scatter(r, &rec);
            let ghost sd = choose|sample: Vec3, draw: int|
                sample.wf() && in_unit_ball(sample) && 0 <= draw < ONE && s == scatter_spec(*m, *r, rec, sample, draw);
            proof {
                lemma_scatter_props(*m, *r, rec, sd.0, sd.1, zero());
            }
            match s {
                Some((attenuation, scattered)) => {
                    let rest = color(&scattered, world, depth + 1);
                    let c = emitted.add(&attenuation.mul(&rest));
                    proof {
                        assert(color_ok(*world, scattered, depth as int + 1, rest));
                        assert(scatter_spec(*m, *r, rec, sd.0, sd.1) == Some((attenuation, scattered)));
                        assert(c == vadd(emitted_at(*world, rec), vmul(attenuation, rest)));
                        assert(*m == world.materials@[rec.mat as int]);
                        assert(rest.wf());
                        assert(scatter_spec(world.materials@[rec.mat as int], *r, rec, sd.0, sd.1) == Some((attenuation, scattered)));
                        lemma_color_ok_step(*world, *r, depth as int, c, rec, sd.0, sd.1, rest);
                        assert forall|e: Vec3| energy_bounded(*world, e) implies vec_within(c, e) by {
                            assert(material_bounded(world.materials@[rec.mat as int], e));
                            lemma_scatter_props(*m, *r, rec, sd.0, sd.1, e);
                            lemma_fmul_bounded(attenuation.x as int, rest.x as int, e.x as int);
                            lemma_fmul_bounded(attenuation.y as int, rest.y as int, e.y as int);
                            lemma_fmul_bounded(attenuation.z as int, rest.z as int, e.z as int);
                        }
                    }
                    c
                },
                None => {
                    proof {
                        assert forall|e: Vec3| energy_bounded(*world, e) implies vec_within(emitted, e) by {
                            assert(material_bounded(world.materials@[rec.mat as int], e));
                            lemma_scatter_props(*m, *r, rec, sd.0, sd.1, e);
                        }
                        assert(scatter_spec(world.materials@[rec.mat as int], *r, rec, sd.0, sd.1) is None);
                        assert(color_ok(*world, *r, depth as int, emitted));

                    }
                    emitted
                },
            }
        },
    }
}

/// The 8-bit pixel of a linear colour.
pub open spec fn to_rgb(c: Vec3) -> (int, int, int) {
    (quantize_spec(c.x as int), quantize_spec(c.y as int), quantize_spec(c.z as int))
}

proof fn lemma_mean_bounded(sum: int, n: int, e: int)
    requires
        0 <= sum <= n * e,
        n >= 1,
        e >= 0,
    ensures
        0 <= sum / n <= e,
{
    vstd::arithmetic::div_mod::lemma_div_pos_is_pos(sum, n);
    vstd::arithmetic::div_mod::lemma_div_is_ordered(sum, n * e, n);
    vstd::arithmetic::div_mod::lemma_div_by_multiple(e, n);
    assert(n * e == e * n) by (nonlinear_arith);
}

pub open spec fn sum_x(s: Seq<Vec3>) -> int
    decreases s.len(),
{
    if s.len() == 0 { 0 } else { sum_x(s.drop_last()) + s.last().x }
}

pub open spec fn sum_y(s: Seq<Vec3>) -> int
    decreases s.len(),
{
    if s.len() == 0 { 0 } else { sum_y(s.drop_last()) + s.last().y }
}

pub open spec fn sum_z(s: Seq<Vec3>) -> int
    decreases s.len(),
{
    if s.len() == 0 { 0 } else { sum_z(s.drop_last()) + s.last().z }
}

/// The mean of the samples, each channel rounded down.
pub open spec fn mean_spec(s: Seq<Vec3>) -> Vec3 {
    Vec3 {
        x: (sum_x(s) / (s.len() as int)) as i64,
        y: (sum_y(s) / (s.len() as int)) as i64,
        z: (sum_z(s) / (s.len() as int)) as i64,
    }
}

/// Each channel of each sample lies in `[lo, hi]`.
pub open spec fn all_in(s: Seq<Vec3>, lo: int, hi: int) -> bool {
    forall|k: int| 0 <= k < s.len() ==> vec_in(#[trigger] s[k], lo, hi)
}

proof fn lemma_sums_bounded(s: Seq<Vec3>, lo: int, hi: int)
    requires
        all_in(s, lo, hi),
    ensures
        s.len() * lo <= sum_x(s) <= s.len() * hi,
        s.len() * lo <= sum_y(s) <= s.len() * hi,
        s.len() * lo <= sum_z(s) <= s.len() * hi,
    decreases s.len(),
{
    if s.len() > 0 {
        let t = s.drop_last();
        assert forall|k: int| 0 <= k < t.len() implies vec_in(#[trigger] t[k], lo, hi) by {
            assert(t[k] == s[k]);
        }
        lemma_sums_bounded(t, lo, hi);
        assert(vec_in(s[s.len() - 1], lo, hi));
        assert(s.len() * lo == t.len() * lo + lo && s.len() * hi == t.len() * hi + hi) by (nonlinear_arith)
            requires s.len() == t.len() + 1;
    }
}

proof fn lemma_mean_in(s: Seq<Vec3>, lo: int, hi: int)
    requires
        all_in(s, lo, hi),
        s.len() >= 1,
        -LIM <= lo <= 0 <= hi <= LIM,
    ensures
        vec_in(mean_spec(s), lo, hi),
{
    lemma_sums_bounded(s, lo, hi);
    let n = s.len() as int;
    assert forall|v: int| n * lo <= v <= n * hi implies lo <= #[trigger] (v / n) <= hi by {
        vstd::arithmetic::div_mod::lemma_div_is_ordered(v, n * hi, n);
        vstd::arithmetic::div_mod::lemma_div_is_ordered(n * lo, v, n);
        vstd::arithmetic::div_mod::lemma_div_by_multiple(hi, n);
        vstd::arithmetic::div_mod::lemma_fundamental_div_mod_converse(n * lo, n, lo, 0);
        assert(n * hi == hi * n && n * lo == lo * n) by (nonlinear_arith);
    }
    assert(lo <= sum_x(s) / n <= hi);
    assert(lo <= sum_y(s) / n <= hi);
    assert(lo <= sum_z(s) / n <= hi);
}

/// Each sample lies within `e`, channel by channel.
pub open spec fn all_within(s: Seq<Vec3>, e: Vec3) -> bool {
    forall|k: int| 0 <= k < s.len() ==> vec_within(#[trigger] s[k], e)
}

proof fn lemma_sums_within(s: Seq<Vec3>, e: Vec3)
    requires
        all_within(s, e),
    ensures
        0 <= sum_x(s) <= s.len() * e.x,
        0 <= sum_y(s) <= s.len() * e.y,
        0 <= sum_z(s) <= s.len() * e.z,
    decreases s.len(),
{
    if s.len() > 0 {
        let t = s.drop_last();
        assert forall|k: int| 0 <= k < t.len() implies vec_within(#[trigger] t[k], e) by {
            assert(t[k] == s[k]);
        }
        lemma_sums_within(t, e);
        assert(vec_within(s[s.len() - 1], e));
        assert(s.len() * e.x == t.len() * e.x + e.x && s.len() * e.y == t.len() * e.y + e.y && s.len() * e.z
            == t.len() * e.z + e.z) by (nonlinear_arith)
            requires s.len() == t.len() + 1;
    }
}

proof fn lemma_mean_within(s: Seq<Vec3>, e: Vec3)
    requires
        all_within(s, e),
        s.len() >= 1,
        0 <= e.x <= LIM && 0 <= e.y <= LIM && 0 <= e.z <= LIM,
    ensures
        vec_within(mean_spec(s), e),
{
    lemma_sums_within(s, e);
    let n = s.len() as int;
    lemma_mean_bounded(sum_x(s), n, e.x as int);
    lemma_mean_bounded(sum_y(s), n, e.y as int);
    lemma_mean_bounded(sum_z(s), n, e.z as int);
}

/// The 8-bit pixel of the mean of the samples.
pub fn pixel_from_samples(samples: &Vec<Vec3>) -> (rgb: (u8, u8, u8))
    requires
        1 <= samples.len() <= 0x10_0000,
        all_in(samples@, -LIM as int, LIM as int),
    ensures
        (rgb.0 as int, rgb.1 as int, rgb.2 as int) == to_rgb(mean_spec(samples@)),
        mean_spec(samples@).wf(),
{
    let mut sx: i64 = 0;
    let mut sy: i64 = 0;
    let mut sz: i64 = 0;
    let mut k: usize = 0;
    while k < samples.len()
        invariant
            k <= samples.len(),
            samples.len() <= 0x10_0000,
            all_in(samples@, -LIM as int, LIM as int),
            sx == sum_x(samples@.take(k as int)),
            sy == sum_y(samples@.take(k as int)),
            sz == sum_z(samples@.take(k as int)),
            -(k as int) * LIM <= sx <= k * LIM,
            -(k as int) * LIM <= sy <= k * LIM,
            -(k as int) * LIM <= sz <= k * LIM,
        decreases samples.len() - k,
    {
        assert(samples@.take(k as int + 1).drop_last() =~= samples@.take(k as int));
        assert(samples@.take(k as int + 1).last() == samples@[k as int]);
        assert(vec_in(samples@[k as int], -LIM as int, LIM as int));
        let c = samples[k];
        sx = sx + c.x;
        sy = sy + c.y;
        sz = sz + c.z;
        k = k + 1;
    }
    assert(samples@.take(samples.len() as int) =~= samples@);
    let n = samples.len() as i128;
    let mx = div_floor(sx as i128, n) as i64;
    let my = div_floor(sy as i128, n) as i64;
    let mz = div_floor(sz as i128, n) as i64;
    proof {
        lemma_mean_in(samples@, -LIM as int, LIM as int);
    }
    (quantize(mx), quantize(my), quantize(mz))
}

/// `c` is an estimate the renderer can take for pixel `(i, j)` of an `nx` by
/// `ny` image: the estimator's value along the camera ray through
/// `((i + du) / nx, (j + dv) / ny)` from some lens point, for jitters `du`, `dv`
/// in `[0, 1)`.
pub open spec fn sample_ok(w: World, cam: Camera, i: int, j: int, nx: int, ny: int, c: Vec3) -> bool {
    exists|du: int, dv: int, disk: Vec3|
        0 <= du < ONE && 0 <= dv < ONE && disk.wf() && in_unit_disk(disk) && color_ok(
            w,
            #[trigger] ray_through(cam, (i * ONE + du) / nx, (j * ONE + dv) / ny, disk),
            0,
            c,
        )
}

/// The colour of pixel `(i, j)` of an `nx` by `ny` image: the mean of `ns`
/// estimates along rays jittered within the pixel, gamma-corrected and
/// quantized. Under an energy bound `e` the mean lies in `[0, e]`.
pub fn render_pixel(world: &World, cam: &Camera, i: u32, j: u32, nx: u32, ny: u32, ns: u32) -> (rgb: (u8, u8, u8))
    requires
        world.wf(),
        cam.wf(),
        i < nx,
        j < ny,
        1 <= ns <= 0x10_0000,
    ensures
        exists|s: Seq<Vec3>|
            s.len() == ns && (rgb.0 as int, rgb.1 as int, rgb.2 as int) == to_rgb(#[trigger] mean_spec(s)) && (forall|k: int|
                0 <= k < ns ==> sample_ok(*world, *cam, i as int, j as int, nx as int, ny as int, #[trigger] s[k]))
                && (forall|e: Vec3| energy_bounded(*world, e) ==> vec_within(mean_spec(s), e)),
{
    let mut samples: Vec<Vec3> = Vec::new();
    let mut k: u32 = 0;
    while k < ns
        invariant
            k <= ns,
            ns <= 0x10_0000,
            i < nx,
            j < ny,
            world.wf(),
            cam.wf(),
            samples.len() == k,
            all_in(samples@, -LIM as int, LIM as int),
            forall|m: int| 0 <= m < k ==> sample_ok(*world, *cam, i as int, j as int, nx as int, ny as int, #[trigger] samples@[m]),
            forall|e: Vec3| energy_bounded(*world, e) ==> all_within(samples@, e),
        decreases ns - k,
    {
        assert(i * ONE <= 0x1_0000_0000_0000 && j * ONE <= 0x1_0000_0000_0000) by (nonlinear_arith)
            requires i <= 0xffff_ffff, j <= 0xffff_ffff;
        let du = random_below(ONE as u64);
        let dv = random_below(ONE as u64);
        let u = ((i as u64 * ONE as u64 + du) / nx as u64) as i64;
        let v = ((j as u64 * ONE as u64 + dv) / ny as u64) as i64;
        let ray = cam.get_ray(u, v);
        let c = color(&ray, world, 0);
        proof {
            let disk = choose|disk: Vec3| disk.wf() && in_unit_disk(disk) && ray == ray_through(*cam, u as int, v as int, disk);
            assert(u as int == (i * ONE + du) / (nx as int));
            assert(v as int == (j * ONE + dv) / (ny as int));
            assert(color_ok(*world, ray_through(*cam, (i * ONE + du) / (nx as int), (j * ONE + dv) / (ny as int), disk), 0, c));
            assert(sample_ok(*world, *cam, i as int, j as int, nx as int, ny as int, c));
        }
        let ghost prev = samples@;
        samples.push(c);
        proof {
            assert forall|m: int| 0 <= m < samples@.len() implies vec_in(#[trigger] samples@[m], -LIM as int, LIM as int) by {
                if m < prev.len() {
                    assert(samples@[m] == prev[m]);
                }
            }
            assert forall|m: int| 0 <= m < k + 1 implies sample_ok(*world, *cam, i as int, j as int, nx as int, ny as int, #[trigger] samples@[m]) by {
                if m < prev.len() {
                    assert(samples@[m] == prev[m]);
                }
            }
            assert forall|e: Vec3| energy_bounded(*world, e) implies all_within(samples@, e) by {
                assert forall|m: int| 0 <= m < samples@.len() implies vec_within(#[trigger] samples@[m], e) by {
                    if m < prev.len() {
                        assert(samples@[m] == prev[m]);
                        assert(all_within(prev, e));
                    }
                }
            }
        }
        k = k + 1;
    }
    let rgb = pixel_from_samples(&samples);
    proof {
        assert forall|e: Vec3| energy_bounded(*world, e) implies vec_within(mean_spec(samples@), e) by {
            lemma_mean_within(samples@, e);
        }
    }
    rgb
}

} // verus!
