use pathtracer::aabb::{surrounding_box, Aabb};
use pathtracer::bvh::BvhNode;
use pathtracer::fixed::ONE;
use pathtracer::hitable::boxx::Boxx;
use pathtracer::hitable::rect::{XYRect, XZRect, YZRect};
use pathtracer::hitable::sphere::{MovingSphere, Sphere};
use pathtracer::hitable::{bounding_box, hit, FlipNormals, Hitable};
use pathtracer::ray::Ray;
use pathtracer::render::{T_EPS, T_INF};
use pathtracer::vec::{cross, dot, unit_vector, Vec3};

fn fx(v: f64) -> i64 {
    (v * ONE as f64).round() as i64
}

fn v3(x: f64, y: f64, z: f64) -> Vec3 {
    Vec3::new(fx(x), fx(y), fx(z))
}

fn ray(o: Vec3, d: Vec3) -> Ray {
    Ray::new(&o, &d)
}

#[test]
fn aabb_slab_hit_toward_box() {
    let b = Aabb::new(&v3(0.0, 0.0, 0.0), &v3(1.0, 1.0, 1.0));
    let r = ray(v3(-1.0, 0.5, 0.5), v3(1.0, 0.0, 0.0));
    assert!(b.hit(&r, 0, T_INF));
}

#[test]
fn aabb_slab_miss_pointing_away() {
    let b = Aabb::new(&v3(0.0, 0.0, 0.0), &v3(1.0, 1.0, 1.0));
    let r = ray(v3(2.0, 0.5, 0.5), v3(1.0, 0.0, 0.0));
    assert!(!b.hit(&r, 0, T_INF));
}

#[test]
fn aabb_slab_parallel_ray_outside_slab_misses() {
    let b = Aabb::new(&v3(0.0, 0.0, 0.0), &v3(1.0, 1.0, 1.0));
    let r = ray(v3(-1.0, 2.0, 0.5), v3(1.0, 0.0, 0.0));
    assert!(!b.hit(&r, 0, T_INF));
    let inside = ray(v3(-1.0, 0.25, 0.5), v3(1.0, 0.0, 0.0));
    assert!(inside.direction().y() == 0 && b.hit(&inside, 0, T_INF));
}

#[test]
fn aabb_slab_interval_too_short_misses() {
    let b = Aabb::new(&v3(0.0, 0.0, 0.0), &v3(1.0, 1.0, 1.0));
    let r = ray(v3(-1.0, 0.5, 0.5), v3(1.0, 0.0, 0.0));
    assert!(!b.hit(&r, 0, fx(0.5)));
    assert!(b.hit(&r, 0, fx(1.5)));
}

#[test]
fn sphere_hit_head_on() {
    let s = Hitable::Sphere(Sphere::new(v3(0.0, 0.0, -1.0), fx(0.5), 3));
    let r = ray(v3(0.0, 0.0, 0.0), v3(0.0, 0.0, -1.0));
    let rec = s.hit(&r, T_EPS, T_INF).expect("the ray hits the sphere");
    assert_eq!(rec.t, fx(0.5));
    assert_eq!(rec.normal, v3(0.0, 0.0, 1.0));
    assert_eq!(rec.p, v3(0.0, 0.0, -0.5));
    assert_eq!(rec.mat, 3);
}

#[test]
fn sphere_far_root_from_inside() {
    let s = Hitable::Sphere(Sphere::new(v3(0.0, 0.0, 0.0), fx(1.0), 0));
    let r = ray(v3(0.0, 0.0, 0.0), v3(1.0, 0.0, 0.0));
    let rec = s.hit(&r, T_EPS, T_INF).expect("a ray from the centre leaves the sphere");
    assert_eq!(rec.t, fx(1.0));
    assert_eq!(rec.normal, v3(1.0, 0.0, 0.0));
}

#[test]
fn sphere_missed_ray() {
    let s = Hitable::Sphere(Sphere::new(v3(0.0, 0.0, -1.0), fx(0.5), 0));
    let r = ray(v3(0.0, 2.0, 0.0), v3(0.0, 0.0, -1.0));
    assert!(s.hit(&r, T_EPS, T_INF).is_none());
}

#[test]
fn moving_sphere_center_interpolates() {
    let m = MovingSphere::new(v3(0.0, 0.0, 0.0), v3(2.0, 0.0, 0.0), 0, fx(1.0), fx(0.5), 0);
    assert_eq!(m.center(fx(0.5)), v3(1.0, 0.0, 0.0));
    assert_eq!(m.center(0), v3(0.0, 0.0, 0.0));
    let b = m.bounding_box();
    assert_eq!(b.min, v3(-0.5, -0.5, -0.5));
    assert_eq!(b.max, v3(2.5, 0.5, 0.5));
}

#[test]
fn rect_hit_and_parallel_miss() {
    let q = Hitable::XYRect(XYRect::new(fx(-1.0), fx(1.0), fx(-1.0), fx(1.0), fx(-2.0), 1));
    let r = ray(v3(0.5, 0.0, 0.0), v3(0.0, 0.0, -1.0));
    let rec = q.hit(&r, T_EPS, T_INF).expect("the ray crosses the rectangle");
    assert_eq!(rec.t, fx(2.0));
    assert_eq!(rec.normal, v3(0.0, 0.0, 1.0));
    assert_eq!(rec.u, fx(0.75));
    assert_eq!(rec.v, fx(0.5));
    let parallel = ray(v3(0.0, 0.0, 0.0), v3(1.0, 0.0, 0.0));
    assert!(q.hit(&parallel, T_EPS, T_INF).is_none());
    let outside = ray(v3(3.0, 0.0, 0.0), v3(0.0, 0.0, -1.0));
    assert!(q.hit(&outside, T_EPS, T_INF).is_none());
}

#[test]
fn rect_bounding_box_is_padded() {
    let q = XZRect::new(fx(0.0), fx(2.0), fx(0.0), fx(3.0), fx(1.0), 0);
    let b = q.bounding_box();
    assert_eq!(b.min, Vec3::new(0, fx(1.0) - 7, 0));
    assert_eq!(b.max, Vec3::new(fx(2.0), fx(1.0) + 7, fx(3.0)));
}

#[test]
fn flip_normals_negates_normal() {
    let inner = Hitable::YZRect(YZRect::new(fx(-1.0), fx(1.0), fx(-1.0), fx(1.0), fx(2.0), 0));
    let f = Hitable::FlipNormals(FlipNormals::new(Box::new(inner)));
    let r = ray(v3(0.0, 0.0, 0.0), v3(1.0, 0.0, 0.0));
    let rec = f.hit(&r, T_EPS, T_INF).expect("the ray crosses the rectangle");
    assert_eq!(rec.normal, v3(-1.0, 0.0, 0.0));
    assert_eq!(rec.t, fx(2.0));
}

#[test]
fn box_faces_point_outwards() {
    let b = Hitable::Boxx(Boxx::new(v3(1.0, -1.0, -1.0), v3(3.0, 1.0, 1.0), 2));
    let r = ray(v3(0.0, 0.0, 0.0), v3(1.0, 0.0, 0.0));
    let rec = b.hit(&r, T_EPS, T_INF).expect("the ray enters the box");
    assert_eq!(rec.t, fx(1.0));
    assert_eq!(rec.normal, v3(-1.0, 0.0, 0.0));
    let back = ray(v3(5.0, 0.0, 0.0), v3(-1.0, 0.0, 0.0));
    let rec2 = b.hit(&back, T_EPS, T_INF).expect("the ray enters the box from behind");
    assert_eq!(rec2.t, fx(2.0));
    assert_eq!(rec2.normal, v3(1.0, 0.0, 0.0));
    let bb = b.bounding_box(0, 0);
    assert_eq!(bb.min, v3(1.0, -1.0, -1.0));
    assert_eq!(bb.max, v3(3.0, 1.0, 1.0));
}

#[test]
fn surrounding_box_contains_all_corners() {
    let a = Aabb::new(&v3(0.0, 0.0, 0.0), &v3(1.0, 2.0, 1.0));
    let b = Aabb::new(&v3(-1.0, 0.5, 0.5), &v3(0.5, 3.0, 4.0));
    let s = surrounding_box(&a, &b);
    assert_eq!(s.min, v3(-1.0, 0.0, 0.0));
    assert_eq!(s.max, v3(1.0, 3.0, 4.0));
    for bx in [&a, &b] {
        for c in 0..8 {
            let x = if c & 1 == 0 { bx.min.x } else { bx.max.x };
            let y = if c & 2 == 0 { bx.min.y } else { bx.max.y };
            let z = if c & 4 == 0 { bx.min.z } else { bx.max.z };
            assert!(s.min.x <= x && x <= s.max.x);
            assert!(s.min.y <= y && y <= s.max.y);
            assert!(s.min.z <= z && z <= s.max.z);
        }
    }
}

fn scene() -> Vec<Hitable> {
    vec![
        Hitable::Sphere(Sphere::new(v3(0.0, 0.0, -1.0), fx(0.5), 0)),
        Hitable::Sphere(Sphere::new(v3(0.0, -100.5, -1.0), fx(100.0), 1)),
        Hitable::Sphere(Sphere::new(v3(1.0, 0.0, -1.0), fx(0.5), 2)),
        Hitable::Sphere(Sphere::new(v3(-1.0, 0.0, -1.0), fx(0.5), 3)),
        Hitable::XZRect(XZRect::new(fx(-2.0), fx(2.0), fx(-3.0), fx(0.0), fx(2.0), 4)),
        Hitable::Boxx(Boxx::new(v3(-0.3, -0.5, -2.5), v3(0.3, 0.4, -2.0), 5)),
        Hitable::YZRect(YZRect::new(fx(-1.0), fx(1.0), fx(-3.0), fx(-1.5), fx(-2.0), 6)),
    ]
}

#[test]
fn bvh_agrees_with_linear_scan() {
    let list = scene();
    let bvh = Hitable::Bvh(BvhNode::new(scene(), 0, 0));
    let mut hits = 0;
    for i in 0..40 {
        for j in 0..20 {
            let d = v3(-2.0 + 4.0 * (i as f64 + 0.5) / 40.0, -1.0 + 3.0 * (j as f64 + 0.5) / 20.0, -1.0);
            let r = ray(v3(0.0, 0.1, 0.3), d);
            let a = bvh.hit(&r, T_EPS, T_INF);
            let b = hit(&list, &r, T_EPS, T_INF);
            match (a, b) {
                (Some(x), Some(y)) => {
                    hits += 1;
                    assert_eq!(x.t, y.t);
                    assert_eq!(x.mat, y.mat);
                    assert_eq!(x.p, y.p);
                }
                (None, None) => {}
                _ => panic!("the hierarchy and the scan disagree on ray {}/{}", i, j),
            }
        }
    }
    assert!(hits > 100);
}

#[test]
fn bvh_of_one_surface() {
    let bvh = BvhNode::new(vec![Hitable::Sphere(Sphere::new(v3(0.0, 0.0, -1.0), fx(0.5), 7))], 0, 0);
    let r = ray(v3(0.0, 0.0, 0.0), v3(0.0, 0.0, -1.0));
    let rec = bvh.hit(&r, T_EPS, T_INF).expect("hit");
    assert_eq!(rec.t, fx(0.5));
    assert_eq!(rec.mat, 7);
    assert_eq!(bvh.bounding_box().min, v3(-0.5, -0.5, -1.5));
}

#[test]
fn list_bounding_box() {
    let empty: Vec<Hitable> = Vec::new();
    assert!(bounding_box(&empty, 0, 0).is_none());
    let list = vec![
        Hitable::Sphere(Sphere::new(v3(0.0, 0.0, 0.0), fx(1.0), 0)),
        Hitable::Sphere(Sphere::new(v3(3.0, 0.0, 0.0), fx(0.5), 0)),
    ];
    let b = bounding_box(&list, 0, 0).expect("a box");
    assert_eq!(b.min, v3(-1.0, -1.0, -1.0));
    assert_eq!(b.max, v3(3.5, 1.0, 1.0));
}

#[test]
fn vector_algebra() {
    let a = v3(1.0, 2.0, 3.0);
    let b = v3(4.0, -5.0, 6.0);
    assert_eq!(dot(&a, &b), fx(12.0));
    assert_eq!(cross(&a, &b), v3(27.0, 6.0, -13.0));
    assert_eq!(v3(3.0, 4.0, 0.0).length(), fx(5.0));
    assert_eq!(unit_vector(&v3(3.0, 0.0, 4.0)), Vec3::new(39321, 0, 52428));
    assert_eq!(a.add(&b), v3(5.0, -3.0, 9.0));
    assert_eq!(a.mul(&b), v3(4.0, -10.0, 18.0));
    assert_eq!(a.scale(fx(2.0)), v3(2.0, 4.0, 6.0));
    assert_eq!(a.div(fx(2.0)), v3(0.5, 1.0, 1.5));
    assert_eq!(a.neg(), v3(-1.0, -2.0, -3.0));
    assert_eq!(v3(1.0, 2.0, 2.0).squared_length(), fx(9.0));
    let mut m = v3(0.0, 0.0, 2.0);
    m.make_unit_vector();
    assert_eq!(m, v3(0.0, 0.0, 1.0));
    assert_eq!(a.index(1), fx(2.0));
}

#[test]
fn vector_components_saturate() {
    let big = Vec3::new(i64::MAX, i64::MIN, 5);
    assert_eq!(big.x(), pathtracer::fixed::LIM);
    assert_eq!(big.y(), -pathtracer::fixed::LIM);
    assert_eq!(big.z(), 5);
}

#[test]
fn point_at_parameter() {
    let r = ray(v3(1.0, 0.0, 0.0), v3(0.0, 2.0, 0.0));
    assert_eq!(r.point_at_parameter(fx(1.5)), v3(1.0, 3.0, 0.0));
}

#[test]
fn surface_validity() {
    assert!(Hitable::Sphere(Sphere::new(v3(0.0, 0.0, 0.0), fx(1.0), 0)).is_valid());
    assert!(!Hitable::Sphere(Sphere::new(v3(0.0, 0.0, 0.0), 0, 0)).is_valid());
    assert!(!Hitable::XYRect(XYRect::new(fx(1.0), fx(0.0), 0, fx(1.0), 0, 0)).is_valid());
    let bvh = Hitable::Bvh(BvhNode::new(scene(), 0, 0));
    assert!(bvh.is_valid());
    let bad = Hitable::Bvh(BvhNode {
        left: Box::new(Hitable::Sphere(Sphere::new(v3(0.0, 0.0, 0.0), fx(1.0), 0))),
        right: Box::new(Hitable::Sphere(Sphere::new(v3(5.0, 0.0, 0.0), fx(1.0), 0))),
        bbox: Aabb::new(&v3(-1.0, -1.0, -1.0), &v3(1.0, 1.0, 1.0)),
    });
    assert!(!bad.is_valid());
    let m = MovingSphere::new(v3(0.0, 0.0, 0.0), v3(1.0, 0.0, 0.0), fx(1.0), fx(1.0), fx(0.5), 0);
    assert!(!Hitable::MovingSphere(m).is_valid());
}

#[test]
fn rect_keeps_a_hit_at_the_end_of_the_window() {
    let q = Hitable::XYRect(XYRect::new(0, fx(1.0), 0, fx(1.0), fx(-1.0), 0));
    let r = ray(v3(0.5, 0.5, 0.0), v3(0.0, 0.0, -1.0));
    let rec = q.hit(&r, fx(0.001), fx(1.0)).expect("a hit exactly at t_max counts");
    assert_eq!(rec.t, fx(1.0));
    assert!(q.hit(&r, fx(0.001), fx(1.0) - 1).is_none());
    let bvh = Hitable::Bvh(BvhNode::new(vec![q.copy(), Hitable::Sphere(Sphere::new(v3(5.0, 5.0, 5.0), fx(0.5), 1))], 0, 0));
    assert_eq!(bvh.hit(&r, fx(0.001), fx(1.0)).map(|h| h.t), Some(fx(1.0)));
}

#[test]
fn moving_sphere_reports_the_texture_coordinates_of_a_sphere() {
    let m = MovingSphere::new(v3(0.0, 0.0, -1.0), v3(0.0, 1.0, -1.0), 0, fx(1.0), fx(0.5), 4);
    let r = Ray::with_time(&v3(0.3, 0.6, 0.0), &v3(0.0, 0.0, -1.0), fx(0.5));
    let s = Sphere::new(m.center(fx(0.5)), fx(0.5), 4);
    let a = Hitable::MovingSphere(m).hit(&r, T_EPS, T_INF).expect("hit");
    let b = Hitable::Sphere(s).hit(&r, T_EPS, T_INF).expect("hit");
    assert_eq!(a, b);
    assert!(a.v != 0);
}

#[test]
fn bvh_of_two_surfaces_keeps_both_as_children() {
    let a = Hitable::Sphere(Sphere::new(v3(3.0, 0.0, 0.0), fx(1.0), 0));
    let b = Hitable::Sphere(Sphere::new(v3(-3.0, 0.0, 0.0), fx(1.0), 1));
    let n = BvhNode::new(vec![a.copy(), b.copy()], 0, 0);
    let (l, r) = (n.left.bounding_box(0, 0), n.right.bounding_box(0, 0));
    let both = surrounding_box(&l, &r);
    assert_eq!(n.bbox, both);
    let mats: Vec<usize> = [&*n.left, &*n.right]
        .iter()
        .map(|h| match h {
            Hitable::Sphere(s) => s.material,
            _ => 99,
        })
        .collect();
    assert!(mats == vec![0, 1] || mats == vec![1, 0]);
}
