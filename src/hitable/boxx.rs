//! A box made of six rectangles.
use vstd::prelude::*;
use crate::aabb::Aabb;
use crate::hitable::rect::{XYRect, XZRect, YZRect};
use crate::hitable::{face_hit, flip_exec, gate, gate_exec, hit_spec, in_range, lemma_face_range, lemma_scan_range, scan, FlipNormals, HitRecord, Hitable};
use crate::ray::Ray;
use crate::vec::Vec3;

verus! {

/// A box given by two opposite corners; its surface is six rectangles, all of
/// material `mat`.
#[derive(Clone, Copy)]
pub struct Boxx {
    pub pmin: Vec3,
    pub pmax: Vec3,
    pub mat: usize,
}

pub open spec fn flipped(h: Hitable) -> Hitable {
    Hitable::FlipNormals(FlipNormals { ptr: Box::new(h) })
}

/// The six faces of the box from `p0` to `p1`: for each axis the face at the far
/// end, then the face at the near end with its normal turned outwards.
pub open spec fn box_faces(p0: Vec3, p1: Vec3, mat: usize) -> Seq<Hitable> {
    seq![
        Hitable::XYRect(XYRect { x0: p0.x, x1: p1.x, y0: p0.y, y1: p1.y, k: p1.z, mp: mat }),
        flipped(Hitable::XYRect(XYRect { x0: p0.x, x1: p1.x, y0: p0.y, y1: p1.y, k: p0.z, mp: mat })),
        Hitable::XZRect(XZRect { x0: p0.x, x1: p1.x, z0: p0.z, z1: p1.z, k: p1.y, mp: mat }),
        flipped(Hitable::XZRect(XZRect { x0: p0.x, x1: p1.x, z0: p0.z, z1: p1.z, k: p0.y, mp: mat })),
        Hitable::YZRect(YZRect { y0: p0.y, y1: p1.y, z0: p0.z, z1: p1.z, k: p1.x, mp: mat }),
        flipped(Hitable::YZRect(YZRect { y0: p0.y, y1: p1.y, z0: p0.z, z1: p1.z, k: p0.x, mp: mat })),
    ]
}

impl Boxx {
    pub open spec fn wf(&self) -> bool {
        &&& self.pmin.wf() && self.pmax.wf()
        &&& self.pmin.x <= self.pmax.x && self.pmin.y <= self.pmax.y && self.pmin.z <= self.pmax.z
    }

    /// The faces of the box, in the order they are scanned.
    pub open spec fn faces(&self) -> Seq<Hitable> {
        box_faces(self.pmin, self.pmax, self.mat)
    }

    /// The box from `p0` to `p1` (with `p0 <= p1` on every axis), all faces of material `mat`.
    pub fn new(p0: Vec3, p1: Vec3, mat: usize) -> (b: Boxx)
        requires
            p0.wf(),
            p1.wf(),
            p0.x <= p1.x && p0.y <= p1.y && p0.z <= p1.z,
        ensures
            b.wf(),
            b == (Boxx { pmin: p0, pmax: p1, mat }),
    {
        Boxx { pmin: p0, pmax: p1, mat }
    }

    /// The hit on face `i` of the box.
    fn face_hit_at(&self, i: usize, r: &Ray, lo: i64, hi: i64) -> (res: Option<HitRecord>)
        requires
            self.wf(),
            r.wf(),
            i < 6,
        ensures
            res == face_hit(self.faces()[i as int], *r, lo as int, hi as int),
    {
        let p0 = self.pmin;
        let p1 = self.pmax;
        if i == 0 {
            XYRect::new(p0.x, p1.x, p0.y, p1.y, p1.z, self.mat).hit(r, lo, hi)
        } else if i == 1 {
            flip_exec(XYRect::new(p0.x, p1.x, p0.y, p1.y, p0.z, self.mat).hit(r, lo, hi))
        } else if i == 2 {
            XZRect::new(p0.x, p1.x, p0.z, p1.z, p1.y, self.mat).hit(r, lo, hi)
        } else if i == 3 {
            flip_exec(XZRect::new(p0.x, p1.x, p0.z, p1.z, p0.y, self.mat).hit(r, lo, hi))
        } else if i == 4 {
            YZRect::new(p0.y, p1.y, p0.z, p1.z, p1.x, self.mat).hit(r, lo, hi)
        } else {
            flip_exec(YZRect::new(p0.y, p1.y, p0.z, p1.z, p0.x, self.mat).hit(r, lo, hi))
        }
    }

    /// The nearest hit on any of the six faces, found by a linear scan.
    pub fn hit(&self, r: &Ray, t_min: i64, t_max: i64) -> (res: Option<HitRecord>)
        requires
            self.wf(),
            r.wf(),
        ensures
            res == hit_spec(Hitable::Boxx(*self), *r, t_min as int, t_max as int),
    {
        let ghost f = |g: Hitable, c: int| face_hit(g, *r, t_min as int, c);
        let ghost faces = self.faces();
        let mut best: Option<HitRecord> = None;
        let mut closest: i64 = t_max;
        let mut i: usize = 0;
        while i < 6
            invariant
                0 <= i <= 6,
                f == (|g: Hitable, c: int| face_hit(g, *r, t_min as int, c)),
                faces == self.faces(),
                faces.len() == 6,
                self.wf(),
                r.wf(),
                best == scan(faces.take(i as int), f, t_max as int),
                closest == match best {
                    Some(rec) => rec.t,
                    None => t_max,
                },
                closest <= t_max,
            decreases 6 - i,
        {
            assert(faces.take(i as int + 1).drop_last() =~= faces.take(i as int));
            assert(faces.take(i as int + 1).last() == faces[i as int]);
            let h = self.face_hit_at(i, r, t_min, closest);
            proof {
                crate::hitable::lemma_box_faces_wf(*self);
                lemma_face_range(faces[i as int], *r, t_min as int, closest as int);
                assert(f(faces[i as int], closest as int) == h);
            }
            match h {
                Some(rec) => {
                    best = Some(rec);
                    closest = rec.t;
                },
                None => {},
            }
            i = i + 1;
        }
        assert(faces.take(6) =~= faces);
        proof {
            crate::hitable::lemma_box_faces_wf(*self);
            assert forall|i: int, c: int| 0 <= i < faces.len() && c <= t_max implies in_range(
                #[trigger] f(faces[i], c),
                t_min as int,
                c,
            ) by {
                lemma_face_range(faces[i], *r, t_min as int, c);
            }
            lemma_scan_range(faces, f, t_min as int, t_max as int);
        }
        gate_exec(&self.bounding_box(), r, t_min, best)
    }

    pub fn bounding_box(&self) -> (b: Aabb)
        ensures
            b == (Aabb { min: self.pmin, max: self.pmax }),
    {
        Aabb::new(&self.pmin, &self.pmax)
    }
}

} // verus!
