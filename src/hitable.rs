//! Surfaces that a ray can hit, and the record of a hit.
//!
//! Every surface reports a hit only where the ray has already reached the
//! surface's bounding box (over the parameters up to just past the hit). A hit is
//! then seen by every box that holds that box, which is what lets a hierarchy of
//! boxes skip whole subtrees without losing a hit.
use vstd::prelude::*;
use crate::aabb::{aabb_hits, contains, union_box, Aabb};
use crate::bvh::BvhNode;
use crate::fixed::{LIM, ONE};
use crate::hitable::boxx::Boxx;
use crate::hitable::rect::{xy_box, xy_hit, xz_box, xz_hit, yz_box, yz_hit, XYRect, XZRect, YZRect};
use crate::hitable::sphere::{moving_center, sphere_box, sphere_hit_at, MovingSphere, Sphere};
use crate::ray::Ray;
use crate::vec::{vneg, Vec3};

pub mod boxx;
pub mod rect;
pub mod sphere;

verus! {

/// Where a ray met a surface: parameter, point, unit normal, the material's index
/// and the texture coordinates.
#[derive(Clone, Copy, Debug, PartialEq, Eq, Structural)]
pub struct HitRecord {
    pub t: i64,
    pub p: Vec3,
    pub normal: Vec3,
    pub mat: usize,
    pub u: i64,
    pub v: i64,
}

/// A surface: one of the primitives, a surface with its normals turned round, or
/// a node of a bounding-volume hierarchy.
pub enum Hitable {
    Sphere(Sphere),
    MovingSphere(MovingSphere),
    XYRect(XYRect),
    XZRect(XZRect),
    YZRect(YZRect),
    Boxx(Boxx),
    FlipNormals(FlipNormals),
    Bvh(BvhNode),
}

/// A surface whose hits report the opposite normal.
pub struct FlipNormals {
    pub ptr: Box<Hitable>,
}

pub open spec fn flip(h: Option<HitRecord>) -> Option<HitRecord> {
    match h {
        Some(rec) => Some(HitRecord { normal: vneg(rec.normal), ..rec }),
        None => None,
    }
}

/// A hit stands only if the ray reaches the box `b` before just past it.
pub open spec fn gate(b: Aabb, r: Ray, lo: int, h: Option<HitRecord>) -> Option<HitRecord> {
    match h {
        Some(rec) => if aabb_hits(b, r, lo, rec.t + 1) {
            h
        } else {
            None
        },
        None => None,
    }
}

/// The nearer of two hits; on equal parameters the second.
pub open spec fn closer(a: Option<HitRecord>, b: Option<HitRecord>) -> Option<HitRecord> {
    match (a, b) {
        (Some(x), Some(y)) => if x.t < y.t {
            a
        } else {
            b
        },
        (Some(_), None) => a,
        (None, _) => b,
    }
}

/// The hit on one face of a box: a rectangle, or a rectangle with flipped normals.
pub open spec fn face_hit(h: Hitable, r: Ray, lo: int, hi: int) -> Option<HitRecord> {
    match h {
        Hitable::XYRect(q) => xy_hit(q, r, lo, hi),
        Hitable::XZRect(q) => xz_hit(q, r, lo, hi),
        Hitable::YZRect(q) => yz_hit(q, r, lo, hi),
        Hitable::FlipNormals(f) => match *f.ptr {
            Hitable::XYRect(q) => flip(xy_hit(q, r, lo, hi)),
            Hitable::XZRect(q) => flip(xz_hit(q, r, lo, hi)),
            Hitable::YZRect(q) => flip(yz_hit(q, r, lo, hi)),
            _ => None,
        },
        _ => None,
    }
}

/// A linear scan: each surface in turn is asked for a hit nearer than the nearest
/// one so far (at first `hi`), and the last hit found is the result.
pub open spec fn scan(s: Seq<Hitable>, f: spec_fn(Hitable, int) -> Option<HitRecord>, hi: int) -> Option<HitRecord>
    decreases s.len(),
{
    if s.len() == 0 {
        None
    } else {
        let prev = scan(s.drop_last(), f, hi);
        let closest = match prev {
            Some(rec) => rec.t as int,
            None => hi,
        };
        match f(s.last(), closest) {
            Some(rec) => Some(rec),
            None => prev,
        }
    }
}

/// The box of a surface.
pub open spec fn bbox_of(h: Hitable) -> Aabb
    decreases h,
{
    match h {
        Hitable::Sphere(s) => sphere_box(s.center, s.radius as int),
        Hitable::MovingSphere(s) => union_box(sphere_box(s.center0, s.radius as int), sphere_box(s.center1, s.radius as int)),
        Hitable::XYRect(q) => xy_box(q),
        Hitable::XZRect(q) => xz_box(q),
        Hitable::YZRect(q) => yz_box(q),
        Hitable::Boxx(b) => Aabb { min: b.pmin, max: b.pmax },
        Hitable::FlipNormals(f) => bbox_of(*f.ptr),
        Hitable::Bvh(n) => n.bbox,
    }
}

/// The nearest hit of the ray on the surface: spheres take parameters in
/// `(lo, hi)`, rectangles and boxes in `[lo, hi]`.
pub open spec fn hit_spec(h: Hitable, r: Ray, lo: int, hi: int) -> Option<HitRecord>
    decreases h,
{
    match h {
        Hitable::Sphere(s) => gate(bbox_of(h), r, lo, sphere_hit_at(s.center, s.radius as int, s.material, r, lo, hi)),
        Hitable::MovingSphere(s) => gate(bbox_of(h), r, lo,
            sphere_hit_at(moving_center(s, r.time as int), s.radius as int, s.material, r, lo, hi)),
        Hitable::XYRect(q) => gate(bbox_of(h), r, lo, xy_hit(q, r, lo, hi)),
        Hitable::XZRect(q) => gate(bbox_of(h), r, lo, xz_hit(q, r, lo, hi)),
        Hitable::YZRect(q) => gate(bbox_of(h), r, lo, yz_hit(q, r, lo, hi)),
        Hitable::Boxx(b) => gate(bbox_of(h), r, lo, scan(b.faces(), |g: Hitable, c: int| face_hit(g, r, lo, c), hi)),
        Hitable::FlipNormals(f) => flip(hit_spec(*f.ptr, r, lo, hi)),
        Hitable::Bvh(n) => if aabb_hits(n.bbox, r, lo, bump(hi)) {
            closer(hit_spec(*n.left, r, lo, hi), hit_spec(*n.right, r, lo, hi))
        } else {
            None
        },
    }
}

/// Well-formed surfaces: valid primitives, boxes made of their six faces, and
/// hierarchy nodes whose box holds the boxes of both children.
pub open spec fn hitable_wf(h: Hitable) -> bool
    decreases h,
{
    match h {
        Hitable::Sphere(s) => s.wf(),
        Hitable::MovingSphere(s) => s.wf(),
        Hitable::XYRect(q) => q.wf(),
        Hitable::XZRect(q) => q.wf(),
        Hitable::YZRect(q) => q.wf(),
        Hitable::Boxx(b) => b.wf(),
        Hitable::FlipNormals(f) => hitable_wf(*f.ptr),
        Hitable::Bvh(n) => {
            &&& hitable_wf(*n.left)
            &&& hitable_wf(*n.right)
            &&& n.bbox.wf()
            &&& contains(n.bbox, bbox_of(*n.left))
            &&& contains(n.bbox, bbox_of(*n.right))
        },
    }
}

/// A hit lies inside the interval asked for (ends included), below `i64::MAX`,
/// with a valid point and normal.
pub open spec fn in_range(h: Option<HitRecord>, lo: int, hi: int) -> bool {
    match h {
        Some(rec) => lo <= rec.t <= hi && rec.t < i64::MAX && rec.p.wf() && rec.normal.wf(),
        None => true,
    }
}

/// A face of a box: a valid rectangle, or a valid rectangle with flipped normals.
pub open spec fn face_wf(h: Hitable) -> bool {
    match h {
        Hitable::XYRect(q) => q.wf(),
        Hitable::XZRect(q) => q.wf(),
        Hitable::YZRect(q) => q.wf(),
        Hitable::FlipNormals(f) => match *f.ptr {
            Hitable::XYRect(q) => q.wf(),
            Hitable::XZRect(q) => q.wf(),
            Hitable::YZRect(q) => q.wf(),
            _ => false,
        },
        _ => false,
    }
}

/// The upper end of the window a hierarchy node tests its box over: one past
/// `hi`, so that a hit exactly at `hi` is still seen.
pub open spec fn bump(hi: int) -> int {
    if hi < i64::MAX {
        hi + 1
    } else {
        hi
    }
}

pub proof fn lemma_sphere_range(center: Vec3, radius: int, mat: usize, r: Ray, lo: int, hi: int)
    requires
        i64::MIN <= lo,
        hi <= i64::MAX,
    ensures
        in_range(sphere_hit_at(center, radius, mat, r, lo, hi), lo, hi),
{
}

proof fn lemma_plane_t_bounded(k: int, on: int, dn: int)
    requires
        -LIM <= k <= LIM,
        -LIM <= on <= LIM,
        dn != 0,
    ensures
        -0x10_0000_0000_0000 <= crate::fixed::fdiv((k - on) * ONE, dn) <= 0x10_0000_0000_0000,
{
    assert(-0x10_0000_0000_0000 <= (k - on) * ONE <= 0x10_0000_0000_0000);
    if dn > 0 {
        crate::fixed::lemma_div_bounded((k - on) * ONE, dn, 0x10_0000_0000_0000);
    } else {
        crate::fixed::lemma_div_bounded(-((k - on) * ONE), -dn, 0x10_0000_0000_0000);
    }
}

pub proof fn lemma_face_range(h: Hitable, r: Ray, lo: int, hi: int)
    requires
        i64::MIN <= lo,
        hi <= i64::MAX,
        r.wf(),
        face_wf(h),
    ensures
        in_range(face_hit(h, r, lo, hi), lo, hi),
{
    let q = match h {
        Hitable::FlipNormals(f) => *f.ptr,
        _ => h,
    };
    match q {
        Hitable::XYRect(x) => {
            if r.b.z != 0 {
                lemma_plane_t_bounded(x.k as int, r.a.z as int, r.b.z as int);
            }
        },
        Hitable::XZRect(x) => {
            if r.b.y != 0 {
                lemma_plane_t_bounded(x.k as int, r.a.y as int, r.b.y as int);
            }
        },
        Hitable::YZRect(x) => {
            if r.b.x != 0 {
                lemma_plane_t_bounded(x.k as int, r.a.x as int, r.b.x as int);
            }
        },
        _ => {},
    }
}

pub proof fn lemma_scan_range(s: Seq<Hitable>, f: spec_fn(Hitable, int) -> Option<HitRecord>, lo: int, hi: int)
    requires
        forall|i: int, c: int| 0 <= i < s.len() && c <= hi ==> in_range(#[trigger] f(s[i], c), lo, c),
    ensures
        in_range(scan(s, f, hi), lo, hi),
    decreases s.len(),
{
    if s.len() > 0 {
        let t = s.drop_last();
        assert forall|i: int, c: int| 0 <= i < t.len() && c <= hi implies in_range(#[trigger] f(t[i], c), lo, c) by {
            assert(t[i] == s[i]);
        }
        lemma_scan_range(t, f, lo, hi);
        let prev = scan(t, f, hi);
        let closest = match prev {
            Some(rec) => rec.t as int,
            None => hi,
        };
        assert(in_range(f(s[s.len() - 1], closest), lo, closest));
    }
}

pub proof fn lemma_box_faces_wf(b: crate::hitable::boxx::Boxx)
    requires
        b.wf(),
    ensures
        b.faces().len() == 6,
        forall|i: int| 0 <= i < 6 ==> #[trigger] face_wf(b.faces()[i]),
{
    assert forall|i: int| 0 <= i < 6 implies #[trigger] face_wf(b.faces()[i]) by {
        if i == 0 {} else if i == 1 {} else if i == 2 {} else if i == 3 {} else if i == 4 {} else {}
    }
}

pub proof fn lemma_hit_range(h: Hitable, r: Ray, lo: int, hi: int)
    requires
        hitable_wf(h),
        r.wf(),
        i64::MIN <= lo,
        hi <= i64::MAX,
    ensures
        in_range(hit_spec(h, r, lo, hi), lo, hi),
    decreases h,
{
    match h {
        Hitable::Boxx(b) => {
            let f = |g: Hitable, c: int| face_hit(g, r, lo, c);
            lemma_box_faces_wf(b);
            assert forall|i: int, c: int| 0 <= i < b.faces().len() && c <= hi implies in_range(
                #[trigger] f(b.faces()[i], c),
                lo,
                c,
            ) by {
                lemma_face_range(b.faces()[i], r, lo, c);
            }
            lemma_scan_range(b.faces(), f, lo, hi);
        },
        Hitable::FlipNormals(f) => {
            lemma_hit_range(*f.ptr, r, lo, hi);
        },
        Hitable::Bvh(n) => {
            lemma_hit_range(*n.left, r, lo, hi);
            lemma_hit_range(*n.right, r, lo, hi);
        },
        Hitable::Sphere(s) => {
            lemma_sphere_range(s.center, s.radius as int, s.material, r, lo, hi);
        },
        Hitable::MovingSphere(s) => {
            lemma_sphere_range(moving_center(s, r.time as int), s.radius as int, s.material, r, lo, hi);
        },
        _ => {
            lemma_face_range(h, r, lo, hi);
        },
    }
}

pub proof fn lemma_bbox_wf(h: Hitable)
    requires
        hitable_wf(h),
    ensures
        bbox_of(h).wf(),
    decreases h,
{
    if let Hitable::FlipNormals(f) = h {
        lemma_bbox_wf(*f.ptr);
    }
}

/// `b`, the answer over `[lo, hi2]`, is consistent with `a`, the answer over the
/// wider window ending at `hi`: a hit below `hi2` stays, a hit beyond `hi2`
/// goes, and a hit exactly at `hi2` may give way to none or to another hit at
/// that same parameter.
pub open spec fn narrow_ok(a: Option<HitRecord>, b: Option<HitRecord>, hi2: int) -> bool {
    match a {
        Some(rec) => if rec.t < hi2 {
            b == a
        } else if rec.t > hi2 {
            b is None
        } else {
            b is None || (b is Some && b.unwrap().t == hi2)
        },
        None => b is None,
    }
}

/// As `narrow_ok`, but a hit exactly at `hi2` either stays or goes.
pub open spec fn narrow_strong(a: Option<HitRecord>, b: Option<HitRecord>, hi2: int) -> bool {
    match a {
        Some(rec) => if rec.t < hi2 {
            b == a
        } else if rec.t > hi2 {
            b is None
        } else {
            b is None || b == a
        },
        None => b is None,
    }
}

/// Narrowing for a surface whose window is closed at its upper end: a hit at or
/// below `hi2` stays, any other goes.
pub open spec fn narrow_closed(a: Option<HitRecord>, b: Option<HitRecord>, hi2: int) -> bool {
    match a {
        Some(rec) => if rec.t <= hi2 {
            b == a
        } else {
            b is None
        },
        None => b is None,
    }
}

/// On the surfaces of `s`, the hit function `f` keeps its hits in range and
/// answers consistently when the upper end of the interval is lowered.
pub open spec fn narrows(f: spec_fn(Hitable, int) -> Option<HitRecord>, s: Seq<Hitable>, lo: int, hi: int) -> bool {
    &&& forall|i: int, c: int| 0 <= i < s.len() && c <= hi ==> in_range(#[trigger] f(s[i], c), lo, c)
    &&& forall|i: int, c1: int, c2: int|
        0 <= i < s.len() && c2 <= c1 <= hi ==> narrow_ok(#[trigger] f(s[i], c1), #[trigger] f(s[i], c2), c2)
}

/// As `narrows`, with windows closed at their upper end.
pub open spec fn narrows_closed(f: spec_fn(Hitable, int) -> Option<HitRecord>, s: Seq<Hitable>, lo: int, hi: int) -> bool {
    &&& forall|i: int, c: int| 0 <= i < s.len() && c <= hi ==> in_range(#[trigger] f(s[i], c), lo, c)
    &&& forall|i: int, c1: int, c2: int|
        0 <= i < s.len() && c2 <= c1 <= hi ==> narrow_closed(#[trigger] f(s[i], c1), #[trigger] f(s[i], c2), c2)
}

/// No hierarchy node inside: a primitive, or primitives with flipped normals.
pub open spec fn flat(h: Hitable) -> bool
    decreases h,
{
    match h {
        Hitable::Bvh(_) => false,
        Hitable::FlipNormals(f) => flat(*f.ptr),
        _ => true,
    }
}

proof fn lemma_sphere_narrow(center: Vec3, radius: int, mat: usize, r: Ray, lo: int, hi: int, hi2: int)
    requires
        center.wf(),
        r.wf(),
        0 < radius <= LIM,
        hi2 <= hi,
        i64::MIN <= lo,
        hi <= i64::MAX,
    ensures
        narrow_strong(sphere_hit_at(center, radius, mat, r, lo, hi), sphere_hit_at(center, radius, mat, r, lo, hi2), hi2),
{
    let q = crate::hitable::sphere::quad(center, radius, r);
    crate::hitable::sphere::lemma_quad_bounds(center, radius, r);
    if crate::hitable::sphere::discriminant(q) > 0 {
        let s = crate::vec::sqrt_floor(crate::hitable::sphere::discriminant(q));
        let w = crate::fixed::isqrt_witness(crate::hitable::sphere::discriminant(q));
        crate::vec::lemma_isqrt_unique(crate::hitable::sphere::discriminant(q), w);
        assert((-q.1 - s) * ONE <= (-q.1 + s) * ONE);
        assert(q.0 > 0);
        vstd::arithmetic::div_mod::lemma_div_is_ordered((-q.1 - s) * ONE, (-q.1 + s) * ONE, q.0);
        assert(crate::hitable::sphere::near_root(q) <= crate::hitable::sphere::far_root(q));
    }
}

/// Every surface answers consistently when the upper end of the interval is
/// lowered; a surface without hierarchy nodes inside never trades a hit for
/// another one.
pub proof fn lemma_hit_narrows(h: Hitable, r: Ray, lo: int, hi: int, hi2: int)
    requires
        hitable_wf(h),
        r.wf(),
        i64::MIN <= lo,
        hi <= i64::MAX,
        hi2 <= hi,
    ensures
        narrow_ok(hit_spec(h, r, lo, hi), hit_spec(h, r, lo, hi2), hi2),
        flat(h) ==> narrow_strong(hit_spec(h, r, lo, hi), hit_spec(h, r, lo, hi2), hi2),
    decreases h,
{
    match h {
        Hitable::Sphere(s) => {
            lemma_sphere_narrow(s.center, s.radius as int, s.material, r, lo, hi, hi2);
        },
        Hitable::MovingSphere(s) => {
            crate::hitable::sphere::lemma_moving_center_wf(s, r.time as int);
            lemma_sphere_narrow(moving_center(s, r.time as int), s.radius as int, s.material, r, lo, hi, hi2);
        },
        Hitable::Boxx(b) => {
            let f = |g: Hitable, c: int| face_hit(g, r, lo, c);
            lemma_box_faces_wf(b);
            lemma_face_narrows(b.faces(), r, lo, hi);
            lemma_scan_narrow_closed(b.faces(), f, lo, hi, hi2);
        },
        Hitable::FlipNormals(f) => {
            lemma_hit_narrows(*f.ptr, r, lo, hi, hi2);
        },
        Hitable::Bvh(n) => {
            lemma_hit_narrows(*n.left, r, lo, hi, hi2);
            lemma_hit_narrows(*n.right, r, lo, hi, hi2);
            lemma_hit_range(*n.left, r, lo, hi);
            lemma_hit_range(*n.right, r, lo, hi);
            let res = hit_spec(h, r, lo, hi);
            if let Some(rec) = res {
                if rec.t <= hi2 {
                    let child = if hit_spec(*n.left, r, lo, hi) == res { *n.left } else { *n.right };
                    lemma_hit_sound(child, r, lo, hi);
                    crate::aabb::lemma_hits_grow_box(bbox_of(child), n.bbox, r, lo, rec.t + 1);
                    crate::aabb::lemma_hits_grow_interval(n.bbox, r, lo, rec.t + 1, bump(hi2));
                }
            } else if !aabb_hits(n.bbox, r, lo, bump(hi)) {
                if aabb_hits(n.bbox, r, lo, bump(hi2)) {
                    crate::aabb::lemma_hits_grow_interval(n.bbox, r, lo, bump(hi2), bump(hi));
                }
            }
        },
        _ => {
            lemma_face_range(h, r, lo, hi);
        },
    }
}

proof fn lemma_face_narrows(s: Seq<Hitable>, r: Ray, lo: int, hi: int)
    requires
        i64::MIN <= lo,
        hi <= i64::MAX,
        r.wf(),
        forall|i: int| 0 <= i < s.len() ==> #[trigger] face_wf(s[i]),
    ensures
        narrows_closed(|g: Hitable, c: int| face_hit(g, r, lo, c), s, lo, hi),
{
    let f = |g: Hitable, c: int| face_hit(g, r, lo, c);
    assert forall|i: int, c: int| 0 <= i < s.len() && c <= hi implies in_range(#[trigger] f(s[i], c), lo, c) by {
        lemma_face_range(s[i], r, lo, c);
    }
    assert forall|i: int, c1: int, c2: int| 0 <= i < s.len() && c2 <= c1 <= hi implies narrow_closed(
        #[trigger] f(s[i], c1),
        #[trigger] f(s[i], c2),
        c2,
    ) by {}
}

pub proof fn lemma_narrows_prefix(f: spec_fn(Hitable, int) -> Option<HitRecord>, s: Seq<Hitable>, lo: int, hi: int)
    requires
        narrows(f, s, lo, hi),
        s.len() > 0,
    ensures
        narrows(f, s.drop_last(), lo, hi),
        forall|c: int| c <= hi ==> in_range(#[trigger] f(s.last(), c), lo, c),
        forall|c1: int, c2: int| c2 <= c1 <= hi ==> narrow_ok(#[trigger] f(s.last(), c1), #[trigger] f(s.last(), c2), c2),
{
    let t = s.drop_last();
    assert forall|i: int, c: int| 0 <= i < t.len() && c <= hi implies in_range(#[trigger] f(t[i], c), lo, c) by {
        assert(t[i] == s[i]);
    }
    assert forall|i: int, c1: int, c2: int| 0 <= i < t.len() && c2 <= c1 <= hi implies narrow_ok(
        #[trigger] f(t[i], c1),
        #[trigger] f(t[i], c2),
        c2,
    ) by {
        assert(t[i] == s[i]);
    }
    assert forall|c: int| c <= hi implies in_range(#[trigger] f(s.last(), c), lo, c) by {
        assert(in_range(f(s[s.len() - 1], c), lo, c));
    }
    assert forall|c1: int, c2: int| c2 <= c1 <= hi implies narrow_ok(#[trigger] f(s.last(), c1), #[trigger] f(s.last(), c2), c2) by {
        assert(narrow_ok(f(s[s.len() - 1], c1), f(s[s.len() - 1], c2), c2));
    }
}

proof fn lemma_closed_prefix(f: spec_fn(Hitable, int) -> Option<HitRecord>, s: Seq<Hitable>, lo: int, hi: int)
    requires
        narrows_closed(f, s, lo, hi),
        s.len() > 0,
    ensures
        narrows_closed(f, s.drop_last(), lo, hi),
        forall|c: int| c <= hi ==> in_range(#[trigger] f(s.last(), c), lo, c),
        forall|c1: int, c2: int| c2 <= c1 <= hi ==> narrow_closed(#[trigger] f(s.last(), c1), #[trigger] f(s.last(), c2), c2),
{
    let t = s.drop_last();
    assert forall|i: int, c: int| 0 <= i < t.len() && c <= hi implies in_range(#[trigger] f(t[i], c), lo, c) by {
        assert(t[i] == s[i]);
    }
    assert forall|i: int, c1: int, c2: int| 0 <= i < t.len() && c2 <= c1 <= hi implies narrow_closed(
        #[trigger] f(t[i], c1),
        #[trigger] f(t[i], c2),
        c2,
    ) by {
        assert(t[i] == s[i]);
    }
    assert forall|c: int| c <= hi implies in_range(#[trigger] f(s.last(), c), lo, c) by {
        assert(in_range(f(s[s.len() - 1], c), lo, c));
    }
    assert forall|c1: int, c2: int| c2 <= c1 <= hi implies narrow_closed(#[trigger] f(s.last(), c1), #[trigger] f(s.last(), c2), c2) by {
        assert(narrow_closed(f(s[s.len() - 1], c1), f(s[s.len() - 1], c2), c2));
    }
}

/// A linear scan over surfaces whose hits narrow consistently narrows consistently too.
pub proof fn lemma_scan_narrow(s: Seq<Hitable>, f: spec_fn(Hitable, int) -> Option<HitRecord>, lo: int, hi: int, hi2: int)
    requires
        narrows(f, s, lo, hi),
        hi2 <= hi,
    ensures
        narrow_ok(scan(s, f, hi), scan(s, f, hi2), hi2),
        in_range(scan(s, f, hi), lo, hi),
    decreases s.len(),
{
    if s.len() > 0 {
        lemma_narrows_prefix(f, s, lo, hi);
        lemma_scan_narrow(s.drop_last(), f, lo, hi, hi2);
        let g = s.last();
        let p1 = scan(s.drop_last(), f, hi);
        let p2 = scan(s.drop_last(), f, hi2);
        let c1 = match p1 { Some(rec) => rec.t as int, None => hi };
        let c2 = match p2 { Some(rec) => rec.t as int, None => hi2 };
        assert(c2 <= c1);
        assert(narrow_ok(f(g, c1), f(g, c2), c2));
    }
}

/// A linear scan over surfaces with closed windows has a closed window too.
pub proof fn lemma_scan_narrow_closed(s: Seq<Hitable>, f: spec_fn(Hitable, int) -> Option<HitRecord>, lo: int, hi: int, hi2: int)
    requires
        narrows_closed(f, s, lo, hi),
        hi2 <= hi,
    ensures
        narrow_closed(scan(s, f, hi), scan(s, f, hi2), hi2),
        in_range(scan(s, f, hi), lo, hi),
    decreases s.len(),
{
    if s.len() > 0 {
        lemma_closed_prefix(f, s, lo, hi);
        lemma_scan_narrow_closed(s.drop_last(), f, lo, hi, hi2);
        let g = s.last();
        let p1 = scan(s.drop_last(), f, hi);
        let p2 = scan(s.drop_last(), f, hi2);
        let c1 = match p1 { Some(rec) => rec.t as int, None => hi };
        let c2 = match p2 { Some(rec) => rec.t as int, None => hi2 };
        assert(c2 <= c1);
        assert(narrow_closed(f(g, c1), f(g, c2), c2));
    }
}

/// A hit is seen by the surface's own box, over the parameters up to just past it.
pub proof fn lemma_hit_sound(h: Hitable, r: Ray, lo: int, hi: int)
    requires
        hitable_wf(h),
    ensures
        match hit_spec(h, r, lo, hi) {
            Some(rec) => aabb_hits(bbox_of(h), r, lo, rec.t + 1),
            None => true,
        },
    decreases h,
{
    match h {
        Hitable::FlipNormals(f) => {
            lemma_hit_sound(*f.ptr, r, lo, hi);
        },
        Hitable::Bvh(n) => {
            lemma_hit_sound(*n.left, r, lo, hi);
            lemma_hit_sound(*n.right, r, lo, hi);
            if let Some(rec) = hit_spec(h, r, lo, hi) {
                if hit_spec(*n.left, r, lo, hi) == Some(rec) {
                    crate::aabb::lemma_hits_grow_box(bbox_of(*n.left), n.bbox, r, lo, rec.t + 1);
                } else {
                    crate::aabb::lemma_hits_grow_box(bbox_of(*n.right), n.bbox, r, lo, rec.t + 1);
                }
            }
        },
        _ => {},
    }
}

pub(crate) fn flip_exec(h: Option<HitRecord>) -> (res: Option<HitRecord>)
    requires
        match h {
            Some(rec) => rec.normal.wf(),
            None => true,
        },
    ensures
        res == flip(h),
{
    match h {
        Some(rec) => Some(HitRecord { normal: rec.normal.neg(), ..rec }),
        None => None,
    }
}

/// Keeps a hit only where the ray reaches the box `b` before just past the hit.
/// For an exact hit of a primitive the ray has always reached the primitive's
/// box by then; only a hit that rounding has moved off the primitive can be
/// dropped here.
pub(crate) fn gate_exec(b: &Aabb, r: &Ray, lo: i64, h: Option<HitRecord>) -> (res: Option<HitRecord>)
    requires
        b.wf(),
        r.wf(),
        match h {
            Some(rec) => rec.t < i64::MAX,
            None => true,
        },
    ensures
        res == gate(*b, *r, lo as int, h),
{
    match h {
        Some(rec) => if b.hit(r, lo, rec.t + 1) {
            h
        } else {
            None
        },
        None => None,
    }
}

/// The box of a list: `None` for an empty list, else the union of the boxes of
/// its surfaces, taken from first to last.
pub open spec fn list_box(s: Seq<Hitable>) -> Option<Aabb>
    decreases s.len(),
{
    if s.len() == 0 {
        None
    } else if s.len() == 1 {
        Some(bbox_of(s[0]))
    } else {
        Some(union_box(list_box(s.drop_last()).unwrap(), bbox_of(s.last())))
    }
}

/// The nearest hit over a list of surfaces, by a linear scan that lowers the
/// upper end of the interval to each hit found.
pub fn hit(list: &Vec<Hitable>, r: &Ray, t_min: i64, t_max: i64) -> (res: Option<HitRecord>)
    requires
        forall|i: int| 0 <= i < list.len() ==> #[trigger] hitable_wf(list@[i]),
        r.wf(),
    ensures
        res == scan(list@, |g: Hitable, c: int| hit_spec(g, *r, t_min as int, c), t_max as int),
        in_range(res, t_min as int, t_max as int),
{
    let ghost f = |g: Hitable, c: int| hit_spec(g, *r, t_min as int, c);
    let mut best: Option<HitRecord> = None;
    let mut closest: i64 = t_max;
    let mut i: usize = 0;
    while i < list.len()
        invariant
            0 <= i <= list.len(),
            f == (|g: Hitable, c: int| hit_spec(g, *r, t_min as int, c)),
            forall|k: int| 0 <= k < list.len() ==> #[trigger] hitable_wf(list@[k]),
            r.wf(),
            best == scan(list@.take(i as int), f, t_max as int),
            closest == match best {
                Some(rec) => rec.t,
                None => t_max,
            },
            closest <= t_max,
            in_range(best, t_min as int, t_max as int),
        decreases list.len() - i,
    {
        assert(list@.take(i as int + 1).drop_last() =~= list@.take(i as int));
        assert(list@.take(i as int + 1).last() == list@[i as int]);
        let h = list[i].hit(r, t_min, closest);
        proof {
            assert(f(list@[i as int], closest as int) == h);
        }
        match h {
            Some(rec) => {
                best = Some(rec);
                closest = rec.t;
            },
            None => {},
        }
        i = i + 1;
    }
    assert(list@.take(list.len() as int) =~= list@);
    best
}

/// The box of a list of surfaces: `None` when the list is empty.
pub fn bounding_box(list: &Vec<Hitable>, t0: i64, t1: i64) -> (res: Option<Aabb>)
    requires
        forall|i: int| 0 <= i < list.len() ==> #[trigger] hitable_wf(list@[i]),
    ensures
        res == list_box(list@),
        match res {
            Some(b) => b.wf() && forall|i: int| 0 <= i < list.len() ==> contains(b, #[trigger] bbox_of(list@[i])),
            None => list.len() == 0,
        },
{
    if list.len() == 0 {
        return None;
    }
    let mut aabb = list[0].bounding_box(t0, t1);
    assert(list@.take(1) =~= seq![list@[0]]);
    let mut i: usize = 1;
    while i < list.len()
        invariant
            1 <= i <= list.len(),
            forall|k: int| 0 <= k < list.len() ==> #[trigger] hitable_wf(list@[k]),
            Some(aabb) == list_box(list@.take(i as int)),
            aabb.wf(),
            forall|k: int| 0 <= k < i ==> contains(aabb, #[trigger] bbox_of(list@[k])),
        decreases list.len() - i,
    {
        assert(list@.take(i as int + 1).drop_last() =~= list@.take(i as int));
        assert(list@.take(i as int + 1).last() == list@[i as int]);
        let b = list[i].bounding_box(t0, t1);
        let next = crate::aabb::surrounding_box(&aabb, &b);
        proof {
            crate::aabb::lemma_surrounding_box_contains(aabb, b);
        }
        aabb = next;
        i = i + 1;
    }
    assert(list@.take(list.len() as int) =~= list@);
    Some(aabb)
}

impl FlipNormals {
    pub fn new(ptr: Box<Hitable>) -> (f: FlipNormals)
        ensures
            f == (FlipNormals { ptr }),
    {
        FlipNormals { ptr }
    }
}

impl Hitable {
    /// The nearest hit of the ray on this surface within the window from `t_min` to
    /// `t_max` (open for spheres, closed for rectangles and boxes).
    pub fn hit(&self, r: &Ray, t_min: i64, t_max: i64) -> (res: Option<HitRecord>)
        requires
            hitable_wf(*self),
            r.wf(),
        ensures
            res == hit_spec(*self, *r, t_min as int, t_max as int),
            in_range(res, t_min as int, t_max as int),
        decreases *self,
    {
        proof {
            lemma_hit_range(*self, *r, t_min as int, t_max as int);
            lemma_bbox_wf(*self);
        }
        match self {
            Hitable::Sphere(s) => {
                proof { lemma_sphere_range(s.center, s.radius as int, s.material, *r, t_min as int, t_max as int); }
                gate_exec(&s.bounding_box(), r, t_min, s.hit(r, t_min, t_max))
            },
            Hitable::MovingSphere(s) => {
                proof { lemma_sphere_range(moving_center(*s, r.time as int), s.radius as int, s.material, *r, t_min as int, t_max as int); }
                gate_exec(&s.bounding_box(), r, t_min, s.hit(r, t_min, t_max))
            },
            Hitable::XYRect(q) => {
                proof { lemma_face_range(*self, *r, t_min as int, t_max as int); }
                gate_exec(&q.bounding_box(), r, t_min, q.hit(r, t_min, t_max))
            },
            Hitable::XZRect(q) => {
                proof { lemma_face_range(*self, *r, t_min as int, t_max as int); }
                gate_exec(&q.bounding_box(), r, t_min, q.hit(r, t_min, t_max))
            },
            Hitable::YZRect(q) => {
                proof { lemma_face_range(*self, *r, t_min as int, t_max as int); }
                gate_exec(&q.bounding_box(), r, t_min, q.hit(r, t_min, t_max))
            },
            Hitable::Boxx(b) => b.hit(r, t_min, t_max),
            Hitable::FlipNormals(f) => flip_exec(f.ptr.hit(r, t_min, t_max)),
            Hitable::Bvh(n) => n.hit(r, t_min, t_max),
        }
    }

    /// Whether the surface is well formed: valid primitives, and hierarchy nodes
    /// whose box holds the boxes of both children.
    pub fn is_valid(&self) -> (ok: bool)
        ensures
            ok == hitable_wf(*self),
        decreases *self,
    {
        match self {
            Hitable::Sphere(s) => s.center.is_valid() && 0 < s.radius && s.radius <= LIM,
            Hitable::MovingSphere(s) => s.center0.is_valid() && s.center1.is_valid() && 0 < s.radius && s.radius <= LIM
                && -LIM <= s.time0 && s.time0 < s.time1 && s.time1 <= LIM,
            Hitable::XYRect(q) => -LIM <= q.x0 && q.x0 <= q.x1 && q.x1 <= LIM && -LIM <= q.y0 && q.y0 <= q.y1 && q.y1
                <= LIM && -LIM <= q.k && q.k <= LIM,
            Hitable::XZRect(q) => -LIM <= q.x0 && q.x0 <= q.x1 && q.x1 <= LIM && -LIM <= q.z0 && q.z0 <= q.z1 && q.z1
                <= LIM && -LIM <= q.k && q.k <= LIM,
            Hitable::YZRect(q) => -LIM <= q.y0 && q.y0 <= q.y1 && q.y1 <= LIM && -LIM <= q.z0 && q.z0 <= q.z1 && q.z1
                <= LIM && -LIM <= q.k && q.k <= LIM,
            Hitable::Boxx(b) => b.pmin.is_valid() && b.pmax.is_valid() && b.pmin.x <= b.pmax.x && b.pmin.y <= b.pmax.y
                && b.pmin.z <= b.pmax.z,
            Hitable::FlipNormals(f) => f.ptr.is_valid(),
            Hitable::Bvh(n) => {
                if !n.left.is_valid() || !n.right.is_valid() || !n.bbox.is_valid() {
                    return false;
                }
                let bl = n.left.bounding_box(0, 0);
                let br = n.right.bounding_box(0, 0);
                n.bbox.contains(&bl) && n.bbox.contains(&br)
            },
        }
    }

    /// A copy of this surface.
    pub fn copy(&self) -> (c: Hitable)
        ensures
            c == *self,
        decreases *self,
    {
        match self {
            Hitable::Sphere(s) => Hitable::Sphere(*s),
            Hitable::MovingSphere(s) => Hitable::MovingSphere(*s),
            Hitable::XYRect(q) => Hitable::XYRect(*q),
            Hitable::XZRect(q) => Hitable::XZRect(*q),
            Hitable::YZRect(q) => Hitable::YZRect(*q),
            Hitable::Boxx(b) => Hitable::Boxx(*b),
            Hitable::FlipNormals(f) => Hitable::FlipNormals(FlipNormals { ptr: Box::new(f.ptr.copy()) }),
            Hitable::Bvh(n) => Hitable::Bvh(
                BvhNode { left: Box::new(n.left.copy()), right: Box::new(n.right.copy()), bbox: n.bbox },
            ),
        }
    }

    /// The box of this surface (the same over every time interval).
    pub fn bounding_box(&self, t0: i64, t1: i64) -> (b: Aabb)
        requires
            hitable_wf(*self),
        ensures
            b == bbox_of(*self),
            b.wf(),
        decreases *self,
    {
        proof {
            lemma_bbox_wf(*self);
        }
        match self {
            Hitable::Sphere(s) => s.bounding_box(),
            Hitable::MovingSphere(s) => s.bounding_box(),
            Hitable::XYRect(q) => q.bounding_box(),
            Hitable::XZRect(q) => q.bounding_box(),
            Hitable::YZRect(q) => q.bounding_box(),
            Hitable::Boxx(b) => b.bounding_box(),
            Hitable::FlipNormals(f) => f.ptr.bounding_box(t0, t1),
            Hitable::Bvh(n) => n.bounding_box(),
        }
    }
}

} // verus!
