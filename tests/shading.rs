use pathtracer::camera::{accept_in_disk, Camera};
use pathtracer::fixed::ONE;
use pathtracer::hitable::rect::{XYRect, XZRect, YZRect};
use pathtracer::hitable::sphere::{get_sphere_uv, Sphere};
use pathtracer::hitable::{FlipNormals, HitRecord, Hitable};
use pathtracer::material::{
    accept_in_ball, random_in_unit_sphere, reflect, refract, schlick, Dielectric, DiffuseLight, Lambertian, Material, Metal,
};
use pathtracer::perlin::{generate_perm, noise, turb, Perlin};
use pathtracer::ray::Ray;
use pathtracer::render::{color, pixel_from_samples, quantize, render_pixel, World, MAX_DEPTH};
use pathtracer::texture::{CheckerTexture, ConstantTexture, ImageTexture, NoiseTexture, Texture};
use pathtracer::trig::{cos_fx, sin_fx};
use pathtracer::vec::Vec3;

fn fx(v: f64) -> i64 {
    (v * ONE as f64).round() as i64
}

fn v3(x: f64, y: f64, z: f64) -> Vec3 {
    Vec3::new(fx(x), fx(y), fx(z))
}

fn to_f(v: i64) -> f64 {
    v as f64 / ONE as f64
}

fn record(p: Vec3, normal: Vec3) -> HitRecord {
    HitRecord { t: fx(1.0), p, normal, mat: 0, u: 0, v: 0 }
}

#[test]
fn quantize_values() {
    assert_eq!(quantize(ONE), 255);
    assert_eq!(quantize(ONE / 4), 127);
    assert_eq!(quantize(0), 0);
    assert_eq!(quantize(-5), 0);
    assert_eq!(quantize(4 * ONE), 255);
    assert_eq!(quantize(ONE / 100), 25);
}

#[test]
fn schlick_at_normal_incidence() {
    // r0 = ((1 - 1.5) / (1 + 1.5))^2 = 0.04
    let r = schlick(ONE, fx(1.5));
    assert!((to_f(r) - 0.04).abs() < 0.001);
    let grazing = schlick(0, fx(1.5));
    assert!((to_f(grazing) - 1.0).abs() < 0.001);
}

#[test]
fn reflect_about_normal() {
    let r = reflect(&v3(1.0, -1.0, 0.0), &v3(0.0, 1.0, 0.0));
    assert_eq!(r, v3(1.0, 1.0, 0.0));
}

#[test]
fn refract_straight_through() {
    let d = refract(&v3(0.0, -1.0, 0.0), &v3(0.0, 1.0, 0.0), fx(1.0)).expect("refracts");
    assert_eq!(d, v3(0.0, -1.0, 0.0));
}

#[test]
fn dielectric_total_internal_reflection_reflects_for_every_draw() {
    let glass = Dielectric::new(fx(1.5));
    let normal = v3(0.0, 1.0, 0.0);
    let dir = v3(1.0, 0.2, 0.0);
    let r_in = Ray::new(&v3(0.0, -0.1, 0.0), &dir);
    let rec = record(v3(0.0, 0.0, 0.0), normal);
    assert!(refract(&dir, &normal.neg(), fx(1.5)).is_none());
    assert_eq!(glass.reflect_probability(&r_in, &rec), ONE);
    let reflected = reflect(&dir, &normal);
    for draw in [0, ONE / 3, ONE / 2, ONE - 1] {
        let (att, scattered) = glass.scatter_with(&r_in, &rec, draw);
        assert_eq!(att, v3(1.0, 1.0, 1.0));
        assert_eq!(scattered.direction(), &reflected);
    }
}

#[test]
fn dielectric_head_on_mostly_refracts() {
    let glass = Dielectric::new(fx(1.5));
    let normal = v3(0.0, 1.0, 0.0);
    let r_in = Ray::new(&v3(0.0, 1.0, 0.0), &v3(0.0, -1.0, 0.0));
    let rec = record(v3(0.0, 0.0, 0.0), normal);
    let p = glass.reflect_probability(&r_in, &rec);
    assert!((to_f(p) - 0.04).abs() < 0.001);
    let (_, refracted) = glass.scatter_with(&r_in, &rec, ONE - 1);
    assert_eq!(refracted.direction(), &v3(0.0, -1.0, 0.0));
    let (_, reflected) = glass.scatter_with(&r_in, &rec, 0);
    assert_eq!(reflected.direction(), &v3(0.0, 1.0, 0.0));
}

#[test]
fn metal_absorbs_rays_scattered_into_the_surface() {
    let m = Material::Metal(Metal::new(v3(0.8, 0.8, 0.8), fx(1.0)));
    let r_in = Ray::new(&v3(-1.0, 1.0, 0.0), &v3(1.0, -1.0, 0.0));
    let rec = record(v3(0.0, 0.0, 0.0), v3(0.0, 1.0, 0.0));
    assert!(m.scatter_with(&r_in, &rec, &v3(0.0, -0.9, 0.0), 0).is_none());
    let (att, out) = m.scatter_with(&r_in, &rec, &v3(0.0, 0.0, 0.0), 0).expect("reflects");
    assert_eq!(att, v3(0.8, 0.8, 0.8));
    assert!(out.direction().y() > 0);
}

#[test]
fn metal_fuzz_is_clamped() {
    assert_eq!(Metal::new(v3(1.0, 1.0, 1.0), fx(3.0)).fuzz, ONE);
    assert_eq!(Metal::new(v3(1.0, 1.0, 1.0), -5).fuzz, 0);
    assert_eq!(Metal::new(v3(1.0, 1.0, 1.0), fx(0.3)).fuzz, fx(0.3));
}

#[test]
fn lambertian_scatters_towards_normal_plus_sample() {
    let m = Material::Lambertian(Lambertian::constant(v3(0.5, 0.25, 0.125)));
    let r_in = Ray::new(&v3(0.0, 1.0, 0.0), &v3(0.0, -1.0, 0.0));
    let rec = record(v3(0.0, 0.0, 0.0), v3(0.0, 1.0, 0.0));
    let (att, out) = m.scatter_with(&r_in, &rec, &v3(0.5, 0.0, 0.0), 0).expect("always scatters");
    assert_eq!(att, v3(0.5, 0.25, 0.125));
    assert_eq!(out.direction(), &v3(0.5, 1.0, 0.0));
    assert_eq!(out.origin(), &rec.p);
}

#[test]
fn diffuse_light_emits_and_never_scatters() {
    let m = Material::DiffuseLight(DiffuseLight::new(Texture::Constant(ConstantTexture::new(v3(4.0, 4.0, 4.0)))));
    let r_in = Ray::new(&v3(0.0, 1.0, 0.0), &v3(0.0, -1.0, 0.0));
    let rec = record(v3(0.0, 0.0, 0.0), v3(0.0, 1.0, 0.0));
    assert!(m.scatter(&r_in, &rec).is_none());
    assert_eq!(m.emitted(0, 0, &rec.p), v3(4.0, 4.0, 4.0));
    let dull = Material::Lambertian(Lambertian::constant(v3(0.5, 0.5, 0.5)));
    assert_eq!(dull.emitted(0, 0, &rec.p), Vec3::zero());
}

#[test]
fn random_points_lie_in_the_unit_ball() {
    let mut nonzero = 0;
    for _ in 0..200 {
        let p = random_in_unit_sphere();
        assert!(p.squared_length() < ONE);
        if p != Vec3::zero() {
            nonzero += 1;
        }
    }
    assert!(nonzero > 150);
}

#[test]
fn checker_texture_alternates() {
    let t = Texture::Checker(CheckerTexture::new(
        Box::new(Texture::Constant(ConstantTexture::new(v3(1.0, 0.0, 0.0)))),
        Box::new(Texture::Constant(ConstantTexture::new(v3(0.0, 0.0, 1.0)))),
    ));
    // sin(1) sin(1) sin(-1) < 0: odd
    assert_eq!(t.value(0, 0, &v3(0.1, 0.1, -0.1)), v3(1.0, 0.0, 0.0));
    // sin(1)^3 > 0: even
    assert_eq!(t.value(0, 0, &v3(0.1, 0.1, 0.1)), v3(0.0, 0.0, 1.0));
    // a zero factor: even
    assert_eq!(t.value(0, 0, &v3(0.0, 0.1, -0.1)), v3(0.0, 0.0, 1.0));
}

#[test]
fn image_texture_lookup_and_fallback() {
    let data = vec![255, 0, 0, 0, 255, 0, 0, 0, 255, 255, 255, 255];
    let img = ImageTexture::new(2, 2, data);
    assert_eq!((img.nx, img.ny), (2, 2));
    assert_eq!(img.value(0, 0), Vec3::new(ONE, 0, 0));
    assert_eq!(img.value(fx(0.75), 0), Vec3::new(0, ONE, 0));
    assert_eq!(img.value(0, fx(0.9)), Vec3::new(0, 0, ONE));
    assert_eq!(img.value(fx(5.0), fx(5.0)), Vec3::new(ONE, ONE, ONE));
    assert_eq!(img.value(-ONE, -ONE), Vec3::new(ONE, 0, 0));
    let bad = ImageTexture::new(3, 3, vec![1, 2, 3]);
    assert_eq!((bad.nx, bad.ny), (1, 1));
    assert_eq!(bad.data, vec![128, 128, 128]);
    let grey = bad.value(0, 0).x();
    assert_eq!(grey, 128 * ONE / 255);
}

#[test]
fn sphere_uv_of_poles_and_equator() {
    let (_, v_top) = get_sphere_uv(&v3(0.0, 1.0, 0.0));
    assert!((to_f(v_top) - 1.0).abs() < 0.01);
    let (_, v_bottom) = get_sphere_uv(&v3(0.0, -1.0, 0.0));
    assert!(to_f(v_bottom).abs() < 0.01);
    let (u, v) = get_sphere_uv(&v3(1.0, 0.0, 0.0));
    assert!((to_f(u) - 0.5).abs() < 0.01);
    assert!((to_f(v) - 0.5).abs() < 0.01);
    let (u2, _) = get_sphere_uv(&v3(0.0, 0.0, 1.0));
    assert!((to_f(u2) - 0.25).abs() < 0.01);
}

#[test]
fn sine_and_cosine_approximations() {
    for k in -20..20 {
        let a = k as f64 * 0.37;
        assert!((to_f(sin_fx(fx(a))) - a.sin()).abs() < 0.003);
        assert!((to_f(cos_fx(fx(a))) - a.cos()).abs() < 0.003);
    }
}

#[test]
fn perm_is_a_shuffled_permutation() {
    let mut identical = 0;
    for _ in 0..3 {
        let p = generate_perm();
        assert_eq!(p.len(), 256);
        let mut seen = vec![false; 256];
        for &x in &p {
            assert!(x < 256);
            assert!(!seen[x]);
            seen[x] = true;
        }
        if p.iter().enumerate().all(|(i, &x)| i == x) {
            identical += 1;
        }
    }
    assert!(identical < 3);
}

#[test]
fn noise_vanishes_on_lattice_points_and_stays_bounded() {
    let pn = Perlin::new();
    assert_eq!(noise(&pn, &v3(3.0, -2.0, 5.0)), 0);
    for i in 0..50 {
        let p = v3(i as f64 * 0.173, i as f64 * -0.31, 1.0 + i as f64 * 0.07);
        let n = noise(&pn, &p);
        assert!(n.abs() <= 2 * ONE);
        assert!(turb(&pn, &p, 7) >= 0);
    }
    let t = Texture::Noise(NoiseTexture::new(fx(4.0)));
    let c = t.value(0, 0, &v3(0.3, 0.2, 0.1));
    assert!(c.x >= 0 && c.x <= ONE && c.x == c.y && c.y == c.z);
}

fn two_spheres_world() -> World {
    let root = Hitable::Bvh(pathtracer::bvh::BvhNode::new(
        vec![
            Hitable::Sphere(Sphere::new(v3(0.0, -100.5, -1.0), fx(100.0), 0)),
            Hitable::Sphere(Sphere::new(v3(0.0, 0.0, -1.0), fx(0.5), 0)),
        ],
        0,
        0,
    ));
    World { root, materials: vec![Material::Lambertian(Lambertian::constant(v3(0.5, 0.5, 0.5)))], sky: true }
}

#[test]
fn top_row_shows_the_sky_gradient() {
    let world = two_spheres_world();
    let nx = 200;
    let ny = 100;
    let cam = Camera::new(v3(0.0, 0.0, 0.0), v3(0.0, 0.0, -1.0), v3(0.0, 1.0, 0.0), fx(90.0), fx(2.0), 0, fx(1.0));
    let j = ny - 1;
    for i in 0..nx {
        let s = fx((i as f64 + 0.5) / nx as f64);
        let t = fx((j as f64 + 0.5) / ny as f64);
        let r = cam.get_ray_with(s, t, &Vec3::zero());
        let c = color(&r, &world, 0);
        let d = r.direction();
        let (dx, dy, dz) = (to_f(d.x()), to_f(d.y()), to_f(d.z()));
        let len = (dx * dx + dy * dy + dz * dz).sqrt();
        let tt = 0.5 * (dy / len + 1.0);
        let expected = [(1.0 - tt) + tt * 0.5, (1.0 - tt) + tt * 0.7, 1.0];
        assert!((to_f(c.x()) - expected[0]).abs() < 0.002);
        assert!((to_f(c.y()) - expected[1]).abs() < 0.002);
        assert!((to_f(c.z()) - expected[2]).abs() < 0.002);
        assert!(dy > 0.0);
    }
}

#[test]
fn camera_basis_looks_down_negative_z() {
    let cam = Camera::new(v3(0.0, 0.0, 0.0), v3(0.0, 0.0, -1.0), v3(0.0, 1.0, 0.0), fx(90.0), fx(2.0), 0, fx(1.0));
    assert_eq!(cam.w, v3(0.0, 0.0, 1.0));
    assert_eq!(cam.u, v3(1.0, 0.0, 0.0));
    assert_eq!(cam.v, v3(0.0, 1.0, 0.0));
    assert!((to_f(cam.lower_left_corner.x()) + 2.0).abs() < 0.01);
    assert!((to_f(cam.lower_left_corner.y()) + 1.0).abs() < 0.01);
    assert_eq!(cam.lower_left_corner.z(), -ONE);
    let centre = cam.get_ray(ONE / 2, ONE / 2);
    assert!(to_f(centre.direction().x()).abs() < 0.01);
    assert!(to_f(centre.direction().y()).abs() < 0.01);
    assert_eq!(centre.origin(), &Vec3::zero());
}

#[test]
fn depth_cutoff_returns_local_emission_only() {
    let world = World {
        root: Hitable::Sphere(Sphere::new(v3(0.0, 0.0, -1.0), fx(0.5), 0)),
        materials: vec![Material::Lambertian(Lambertian::constant(v3(0.9, 0.9, 0.9)))],
        sky: false,
    };
    let r = Ray::new(&v3(0.0, 0.0, 0.0), &v3(0.0, 0.0, -1.0));
    assert_eq!(color(&r, &world, MAX_DEPTH), Vec3::zero());
    assert_eq!(color(&r, &world, MAX_DEPTH + 7), Vec3::zero());
    let lit = World {
        root: Hitable::Sphere(Sphere::new(v3(0.0, 0.0, -1.0), fx(0.5), 0)),
        materials: vec![Material::DiffuseLight(DiffuseLight::new(Texture::Constant(ConstantTexture::new(v3(
            2.0, 3.0, 4.0,
        )))))],
        sky: false,
    };
    assert_eq!(color(&r, &lit, MAX_DEPTH), v3(2.0, 3.0, 4.0));
}

#[test]
fn missing_material_is_black() {
    let world = World { root: Hitable::Sphere(Sphere::new(v3(0.0, 0.0, -1.0), fx(0.5), 9)), materials: vec![], sky: true };
    let r = Ray::new(&v3(0.0, 0.0, 0.0), &v3(0.0, 0.0, -1.0));
    assert_eq!(color(&r, &world, 0), Vec3::zero());
}

fn closed_box() -> World {
    let white = 0;
    let light = 1;
    let s = 555.0;
    let list = vec![
        Hitable::FlipNormals(FlipNormals::new(Box::new(Hitable::YZRect(YZRect::new(0, fx(s), 0, fx(s), fx(s), white))))),
        Hitable::YZRect(YZRect::new(0, fx(s), 0, fx(s), 0, white)),
        Hitable::XZRect(XZRect::new(fx(213.0), fx(343.0), fx(227.0), fx(332.0), fx(554.0), light)),
        Hitable::FlipNormals(FlipNormals::new(Box::new(Hitable::XZRect(XZRect::new(0, fx(s), 0, fx(s), fx(s), white))))),
        Hitable::XZRect(XZRect::new(0, fx(s), 0, fx(s), 0, white)),
        Hitable::FlipNormals(FlipNormals::new(Box::new(Hitable::XYRect(XYRect::new(0, fx(s), 0, fx(s), fx(s), white))))),
        Hitable::XYRect(XYRect::new(0, fx(s), 0, fx(s), 0, white)),
    ];
    World {
        root: Hitable::Bvh(pathtracer::bvh::BvhNode::new(list, 0, 0)),
        materials: vec![
            Material::Lambertian(Lambertian::constant(v3(0.73, 0.73, 0.73))),
            Material::DiffuseLight(DiffuseLight::new(Texture::Constant(ConstantTexture::new(v3(15.0, 15.0, 15.0))))),
        ],
        sky: false,
    }
}

#[test]
fn closed_scene_never_exceeds_the_light() {
    let world = closed_box();
    let cam = Camera::new(v3(278.0, 278.0, 100.0), v3(278.0, 278.0, 300.0), v3(0.0, 1.0, 0.0), fx(60.0), fx(1.0), 0, fx(10.0));
    let limit = fx(15.0);
    let mut any_light = false;
    for i in 0..12 {
        for j in 0..12 {
            let s = fx((i as f64 + 0.5) / 12.0);
            let t = fx((j as f64 + 0.5) / 12.0);
            let r = cam.get_ray(s, t);
            for _ in 0..4 {
                let c = color(&r, &world, 0);
                for ch in [c.x(), c.y(), c.z()] {
                    assert!(ch >= 0 && ch <= limit);
                    if ch > 0 {
                        any_light = true;
                    }
                }
            }
        }
    }
    assert!(any_light);
    let px = render_pixel(&world, &cam, 3, 9, 12, 12, 8);
    assert!(px.0 <= quantize(limit) && px.1 <= quantize(limit) && px.2 <= quantize(limit));
}

#[test]
fn pixel_from_samples_averages_then_quantizes() {
    let samples = vec![v3(1.0, 0.0, 0.25), v3(0.0, 0.0, 0.25), v3(0.5, 0.0, 0.25), v3(0.5, 0.0, 0.25)];
    // means: 0.5, 0, 0.25
    assert_eq!(pixel_from_samples(&samples), (quantize(ONE / 2), 0, 127));
    assert_eq!(quantize(ONE / 2), 181);
}

#[test]
fn rejection_tests_for_ball_and_disk() {
    assert_eq!(accept_in_ball(fx(0.5), fx(0.5), fx(0.5)), Some(v3(0.5, 0.5, 0.5)));
    assert_eq!(accept_in_ball(fx(0.6), fx(0.6), fx(0.6)), None);
    assert_eq!(accept_in_ball(ONE, 0, 0), None);
    assert_eq!(accept_in_disk(fx(0.7), fx(0.7)), Some(Vec3::new(fx(0.7), fx(0.7), 0)));
    assert_eq!(accept_in_disk(fx(0.8), fx(0.8)), None);
}
