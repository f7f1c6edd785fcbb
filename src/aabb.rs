//! Axis-aligned bounding boxes: the slab test and the union of two boxes.
use vstd::prelude::*;
use crate::fixed::{LIM, ONE};
use crate::ray::Ray;
use crate::vec::Vec3;

verus! {

#[derive(Clone, Copy, Debug, PartialEq, Eq, Structural)]
pub struct Aabb {
    pub min: Vec3,
    pub max: Vec3,
}

/// A bound `n / d` on the ray parameter (in raw fixed-point units), with `d > 0`.
pub type Frac = (int, int);

pub open spec fn rlt(a: Frac, b: Frac) -> bool {
    a.0 * b.1 < b.0 * a.1
}

pub open spec fn rle(a: Frac, b: Frac) -> bool {
    a.0 * b.1 <= b.0 * a.1
}

/// Where the ray enters the slab `[lo, hi]` of one axis; `None` when it runs parallel to it.
pub open spec fn slab_entry(lo: int, hi: int, o: int, d: int) -> Option<Frac> {
    if d > 0 {
        Some(((lo - o) * ONE, d))
    } else if d < 0 {
        Some(((o - hi) * ONE, -d))
    } else {
        None
    }
}

/// Where the ray leaves the slab `[lo, hi]` of one axis; `None` when it runs parallel to it.
pub open spec fn slab_exit(lo: int, hi: int, o: int, d: int) -> Option<Frac> {
    if d > 0 {
        Some(((hi - o) * ONE, d))
    } else if d < 0 {
        Some(((o - lo) * ONE, -d))
    } else {
        None
    }
}

/// The lower bounds on the parameter of a point inside the box: `tmin` (index 0)
/// and the entry into each axis' slab (indices 1 to 3).
pub open spec fn lower_bound(b: Aabb, r: Ray, tmin: int, i: int) -> Option<Frac> {
    if i == 0 {
        Some((tmin, 1))
    } else {
        slab_entry(
            b.min.at(i - 1) as int,
            b.max.at(i - 1) as int,
            r.a.at(i - 1) as int,
            r.b.at(i - 1) as int,
        )
    }
}

/// The upper bounds: `tmax` (index 0) and the exit from each axis' slab.
pub open spec fn upper_bound(b: Aabb, r: Ray, tmax: int, j: int) -> Option<Frac> {
    if j == 0 {
        Some((tmax, 1))
    } else {
        slab_exit(
            b.min.at(j - 1) as int,
            b.max.at(j - 1) as int,
            r.a.at(j - 1) as int,
            r.b.at(j - 1) as int,
        )
    }
}

pub open spec fn bound_lt(l: Option<Frac>, u: Option<Frac>) -> bool {
    match (l, u) {
        (Some(l), Some(u)) => rlt(l, u),
        _ => true,
    }
}

/// A ray parallel to an axis meets the box only if its origin lies within that axis' slab.
pub open spec fn axis_open(b: Aabb, r: Ray, a: int) -> bool {
    r.b.at(a) != 0 || (b.min.at(a) <= r.a.at(a) && r.a.at(a) <= b.max.at(a))
}

/// The ray meets the box for some parameter in `(tmin, tmax)`: no slab is missed,
/// and every lower bound lies strictly below every upper bound.
pub open spec fn aabb_hits(b: Aabb, r: Ray, tmin: int, tmax: int) -> bool {
    &&& forall|a: int| 0 <= a < 3 ==> #[trigger] axis_open(b, r, a)
    &&& forall|i: int, j: int|
        0 <= i < 4 && 0 <= j < 4 ==> #[trigger] bound_lt(
            lower_bound(b, r, tmin, i),
            upper_bound(b, r, tmax, j),
        )
}

/// `outer` holds `inner`: each axis of `inner` lies within that of `outer`.
pub open spec fn contains(outer: Aabb, inner: Aabb) -> bool {
    &&& outer.min.x <= inner.min.x && inner.max.x <= outer.max.x
    &&& outer.min.y <= inner.min.y && inner.max.y <= outer.max.y
    &&& outer.min.z <= inner.min.z && inner.max.z <= outer.max.z
}

/// Corner `c` (0 to 7) of the box: bit 0 picks x, bit 1 picks y, bit 2 picks z.
pub open spec fn corner(b: Aabb, c: int) -> Vec3 {
    Vec3 {
        x: if c % 2 == 0 { b.min.x } else { b.max.x },
        y: if (c / 2) % 2 == 0 { b.min.y } else { b.max.y },
        z: if (c / 4) % 2 == 0 { b.min.z } else { b.max.z },
    }
}

pub open spec fn inside(b: Aabb, p: Vec3) -> bool {
    &&& b.min.x <= p.x <= b.max.x
    &&& b.min.y <= p.y <= b.max.y
    &&& b.min.z <= p.z <= b.max.z
}

pub open spec fn union_box(a: Aabb, b: Aabb) -> Aabb {
    Aabb {
        min: Vec3 {
            x: if a.min.x <= b.min.x { a.min.x } else { b.min.x },
            y: if a.min.y <= b.min.y { a.min.y } else { b.min.y },
            z: if a.min.z <= b.min.z { a.min.z } else { b.min.z },
        },
        max: Vec3 {
            x: if a.max.x >= b.max.x { a.max.x } else { b.max.x },
            y: if a.max.y >= b.max.y { a.max.y } else { b.max.y },
            z: if a.max.z >= b.max.z { a.max.z } else { b.max.z },
        },
    }
}

pub proof fn lemma_rle_trans(a: Frac, b: Frac, c: Frac)
    requires
        a.1 > 0,
        b.1 > 0,
        c.1 > 0,
        rle(a, b),
        rle(b, c),
    ensures
        rle(a, c),
{
    assert(a.0 * b.1 * c.1 <= b.0 * a.1 * c.1) by (nonlinear_arith)
        requires
            a.0 * b.1 <= b.0 * a.1,
            c.1 > 0,
    ;
    assert(b.0 * c.1 * a.1 <= c.0 * b.1 * a.1) by (nonlinear_arith)
        requires
            b.0 * c.1 <= c.0 * b.1,
            a.1 > 0,
    ;
    assert(a.0 * c.1 <= c.0 * a.1) by (nonlinear_arith)
        requires
            a.0 * b.1 * c.1 <= b.0 * a.1 * c.1,
            b.0 * c.1 * a.1 <= c.0 * b.1 * a.1,
            b.1 > 0,
    ;
}

pub proof fn lemma_rle_rlt(a: Frac, b: Frac, c: Frac)
    requires
        a.1 > 0,
        b.1 > 0,
        c.1 > 0,
        rle(a, b),
        rlt(b, c),
    ensures
        rlt(a, c),
{
    assert(a.0 * b.1 * c.1 <= b.0 * a.1 * c.1) by (nonlinear_arith)
        requires
            a.0 * b.1 <= b.0 * a.1,
            c.1 > 0,
    ;
    assert(b.0 * c.1 * a.1 < c.0 * b.1 * a.1) by (nonlinear_arith)
        requires
            b.0 * c.1 < c.0 * b.1,
            a.1 > 0,
    ;
    assert(a.0 * c.1 < c.0 * a.1) by (nonlinear_arith)
        requires
            a.0 * b.1 * c.1 <= b.0 * a.1 * c.1,
            b.0 * c.1 * a.1 < c.0 * b.1 * a.1,
            b.1 > 0,
    ;
}

pub proof fn lemma_rlt_rle(a: Frac, b: Frac, c: Frac)
    requires
        a.1 > 0,
        b.1 > 0,
        c.1 > 0,
        rlt(a, b),
        rle(b, c),
    ensures
        rlt(a, c),
{
    assert(a.0 * b.1 * c.1 < b.0 * a.1 * c.1) by (nonlinear_arith)
        requires
            a.0 * b.1 < b.0 * a.1,
            c.1 > 0,
    ;
    assert(b.0 * c.1 * a.1 <= c.0 * b.1 * a.1) by (nonlinear_arith)
        requires
            b.0 * c.1 <= c.0 * b.1,
            a.1 > 0,
    ;
    assert(a.0 * c.1 < c.0 * a.1) by (nonlinear_arith)
        requires
            a.0 * b.1 * c.1 < b.0 * a.1 * c.1,
            b.0 * c.1 * a.1 <= c.0 * b.1 * a.1,
            b.1 > 0,
    ;
}

/// The surrounding box holds both boxes: every corner of each lies inside it.
pub proof fn lemma_surrounding_box_contains(a: Aabb, b: Aabb)
    requires
        a.wf(),
        b.wf(),
    ensures
        forall|c: int| 0 <= c < 8 ==> inside(union_box(a, b), #[trigger] corner(a, c)),
        forall|c: int| 0 <= c < 8 ==> inside(union_box(a, b), #[trigger] corner(b, c)),
        contains(union_box(a, b), a),
        contains(union_box(a, b), b),
{
}

/// The union of boxes does not depend on the order or grouping of its arguments.
pub proof fn lemma_surrounding_box_commutative_associative(a: Aabb, b: Aabb, c: Aabb)
    ensures
        union_box(a, b) == union_box(b, a),
        union_box(union_box(a, b), c) == union_box(a, union_box(b, c)),
{
}

proof fn lemma_same_den_le(a: int, b: int, d: int)
    requires
        a <= b,
        d > 0,
    ensures
        rle((a, d), (b, d)),
{
    assert(a * d <= b * d) by (nonlinear_arith)
        requires
            a <= b,
            d > 0,
    ;
}

/// A larger box is met by every ray, over every interval, that meets a smaller box inside it.
pub proof fn lemma_hits_grow_box(inner: Aabb, outer: Aabb, r: Ray, tmin: int, tmax: int)
    requires
        contains(outer, inner),
        aabb_hits(inner, r, tmin, tmax),
    ensures
        aabb_hits(outer, r, tmin, tmax),
{
    assert forall|a: int| 0 <= a < 3 implies #[trigger] axis_open(outer, r, a) by {
        assert(axis_open(inner, r, a));
    }
    assert forall|i: int, j: int| 0 <= i < 4 && 0 <= j < 4 implies #[trigger] bound_lt(
        lower_bound(outer, r, tmin, i),
        upper_bound(outer, r, tmax, j),
    ) by {
        assert(bound_lt(lower_bound(inner, r, tmin, i), upper_bound(inner, r, tmax, j)));
        if let Some(lo) = lower_bound(outer, r, tmin, i) {
            if let Some(uo) = upper_bound(outer, r, tmax, j) {
                let li = lower_bound(inner, r, tmin, i).unwrap();
                let ui = upper_bound(inner, r, tmax, j).unwrap();
                if i > 0 {
                    let d = r.b.at(i - 1) as int;
                    let o = r.a.at(i - 1) as int;
                    if d > 0 {
                        lemma_same_den_le((outer.min.at(i - 1) - o) * ONE, (inner.min.at(i - 1) - o) * ONE, d);
                    } else {
                        lemma_same_den_le((o - outer.max.at(i - 1)) * ONE, (o - inner.max.at(i - 1)) * ONE, -d);
                    }
                }
                if j > 0 {
                    let d = r.b.at(j - 1) as int;
                    let o = r.a.at(j - 1) as int;
                    if d > 0 {
                        lemma_same_den_le((inner.max.at(j - 1) - o) * ONE, (outer.max.at(j - 1) - o) * ONE, d);
                    } else {
                        lemma_same_den_le((o - inner.min.at(j - 1)) * ONE, (o - outer.min.at(j - 1)) * ONE, -d);
                    }
                }
                lemma_rle_rlt(lo, li, ui);
                lemma_rlt_rle(lo, ui, uo);
            }
        }
    }
}

/// Widening the interval upwards keeps a hit.
pub proof fn lemma_hits_grow_interval(b: Aabb, r: Ray, tmin: int, tmax: int, tmax2: int)
    requires
        tmax <= tmax2,
        aabb_hits(b, r, tmin, tmax),
    ensures
        aabb_hits(b, r, tmin, tmax2),
{
    assert forall|a: int| 0 <= a < 3 implies #[trigger] axis_open(b, r, a) by {
        assert(axis_open(b, r, a));
    }
    assert forall|i: int, j: int| 0 <= i < 4 && 0 <= j < 4 implies #[trigger] bound_lt(
        lower_bound(b, r, tmin, i),
        upper_bound(b, r, tmax2, j),
    ) by {
        assert(bound_lt(lower_bound(b, r, tmin, i), upper_bound(b, r, tmax, j)));
        if j == 0 {
            if let Some(l) = lower_bound(b, r, tmin, i) {
                lemma_same_den_le(tmax, tmax2, 1);
                lemma_rlt_rle(l, (tmax, 1), (tmax2, 1));
            }
        }
    }
}

impl Aabb {
    /// Both corners are valid vectors and `min <= max` on every axis.
    pub open spec fn wf(&self) -> bool {
        &&& self.min.wf() && self.max.wf()
        &&& self.min.x <= self.max.x && self.min.y <= self.max.y && self.min.z <= self.max.z
    }

    /// Whether the box is well formed.
    pub fn is_valid(&self) -> (ok: bool)
        ensures
            ok == self.wf(),
    {
        self.min.is_valid() && self.max.is_valid() && self.min.x <= self.max.x && self.min.y <= self.max.y
            && self.min.z <= self.max.z
    }

    /// Whether every coordinate of the box lies strictly inside `(-LIM, LIM)`,
    /// so that no saturation can have cut it.
    pub fn unclipped(&self) -> (ok: bool)
        ensures
            ok == (-LIM < self.min.x && -LIM < self.min.y && -LIM < self.min.z && self.max.x < LIM && self.max.y
                < LIM && self.max.z < LIM),
    {
        -LIM < self.min.x && -LIM < self.min.y && -LIM < self.min.z && self.max.x < LIM && self.max.y < LIM
            && self.max.z < LIM
    }

    /// Whether this box holds `inner`.
    pub fn contains(&self, inner: &Aabb) -> (ok: bool)
        ensures
            ok == contains(*self, *inner),
    {
        self.min.x <= inner.min.x && inner.max.x <= self.max.x && self.min.y <= inner.min.y && inner.max.y
            <= self.max.y && self.min.z <= inner.min.z && inner.max.z <= self.max.z
    }

    pub fn new(min: &Vec3, max: &Vec3) -> (r: Aabb)
        ensures
            r == (Aabb { min: *min, max: *max }),
    {
        Aabb { min: *min, max: *max }
    }

    /// Slab test: whether the ray passes through the box for some parameter in
    /// `(tmin, tmax)`.
    pub fn hit(&self, r: &Ray, tmin: i64, tmax: i64) -> (res: bool)
        requires
            self.wf(),
            r.wf(),
        ensures
            res == aabb_hits(*self, *r, tmin as int, tmax as int),
    {
        let ghost b = *self;
        let ghost ray = *r;
        if tmax <= tmin {
            assert(!bound_lt(lower_bound(b, ray, tmin as int, 0), upper_bound(b, ray, tmax as int, 0)));
            return false;
        }
        let mut ln: i128 = tmin as i128;
        let mut ld: i128 = 1;
        let mut un: i128 = tmax as i128;
        let mut ud: i128 = 1;
        let ghost mut li: int = 0;
        let ghost mut ui: int = 0;
        let mut a: usize = 0;
        while a < 3
            invariant
                b == *self,
                ray == *r,
                b.wf(),
                ray.wf(),
                0 <= a <= 3,
                0 <= li <= a,
                0 <= ui <= a,
                i64::MIN <= ln <= i64::MAX,
                i64::MIN <= un <= i64::MAX,
                1 <= ld <= LIM,
                1 <= ud <= LIM,
                lower_bound(b, ray, tmin as int, li) == Some((ln as int, ld as int)),
                upper_bound(b, ray, tmax as int, ui) == Some((un as int, ud as int)),
                rlt((ln as int, ld as int), (un as int, ud as int)),
                forall|i: int|
                    0 <= i <= a ==> match #[trigger] lower_bound(b, ray, tmin as int, i) {
                        Some(l) => rle(l, (ln as int, ld as int)) && l.1 > 0,
                        None => true,
                    },
                forall|j: int|
                    0 <= j <= a ==> match #[trigger] upper_bound(b, ray, tmax as int, j) {
                        Some(u) => rle((un as int, ud as int), u) && u.1 > 0,
                        None => true,
                    },
                forall|x: int| 0 <= x < a ==> #[trigger] axis_open(b, ray, x),
            decreases 3 - a,
        {
            let lo = self.min.index(a);
            let hi = self.max.index(a);
            let o = r.a.index(a);
            let d = r.b.index(a);
            if d == 0 {
                if o < lo || o > hi {
                    assert(!axis_open(b, ray, a as int));
                    return false;
                }
            } else {
                let n0: i128;
                let n1: i128;
                let dd: i128;
                if d > 0 {
                    n0 = (lo as i128 - o as i128) * ONE as i128;
                    n1 = (hi as i128 - o as i128) * ONE as i128;
                    dd = d as i128;
                } else {
                    n0 = (o as i128 - hi as i128) * ONE as i128;
                    n1 = (o as i128 - lo as i128) * ONE as i128;
                    dd = -(d as i128);
                }
                let ghost old_l: Frac = (ln as int, ld as int);
                let ghost old_u: Frac = (un as int, ud as int);
                assert(lower_bound(b, ray, tmin as int, a + 1) == Some((n0 as int, dd as int)));
                assert(upper_bound(b, ray, tmax as int, a + 1) == Some((n1 as int, dd as int)));
                proof {
                    assert(-0x1_0000_0000_0000_0000_0000_0000 <= n0 * ld <= 0x1_0000_0000_0000_0000_0000_0000) by (nonlinear_arith)
                        requires
                            -0x1000_0000_0000 <= n0 <= 0x1000_0000_0000,
                            1 <= ld <= 0x400_0000,
                    ;
                    assert(-0x1_0000_0000_0000_0000_0000_0000 <= ln * dd <= 0x1_0000_0000_0000_0000_0000_0000) by (nonlinear_arith)
                        requires
                            -0x8000_0000_0000_0000 <= ln <= 0x8000_0000_0000_0000,
                            1 <= dd <= 0x400_0000,
                    ;
                    assert(-0x1_0000_0000_0000_0000_0000_0000 <= n1 * ud <= 0x1_0000_0000_0000_0000_0000_0000) by (nonlinear_arith)
                        requires
                            -0x1000_0000_0000 <= n1 <= 0x1000_0000_0000,
                            1 <= ud <= 0x400_0000,
                    ;
                    assert(-0x1_0000_0000_0000_0000_0000_0000 <= un * dd <= 0x1_0000_0000_0000_0000_0000_0000) by (nonlinear_arith)
                        requires
                            -0x8000_0000_0000_0000 <= un <= 0x8000_0000_0000_0000,
                            1 <= dd <= 0x400_0000,
                    ;
                }
                if n0 * ld > ln * dd {
                    proof {
                        assert forall|i: int| 0 <= i <= a implies match #[trigger] lower_bound(b, ray, tmin as int, i) {
                            Some(l) => rle(l, (n0 as int, dd as int)) && l.1 > 0,
                            None => true,
                        } by {
                            if let Some(l) = lower_bound(b, ray, tmin as int, i) {
                                lemma_rle_trans(l, old_l, (n0 as int, dd as int));
                            }
                        }
                    }
                    ln = n0;
                    ld = dd;
                    proof {
                        li = a + 1;
                    }
                }
                if n1 * ud < un * dd {
                    proof {
                        assert forall|j: int| 0 <= j <= a implies match #[trigger] upper_bound(b, ray, tmax as int, j) {
                            Some(u) => rle((n1 as int, dd as int), u) && u.1 > 0,
                            None => true,
                        } by {
                            if let Some(u) = upper_bound(b, ray, tmax as int, j) {
                                lemma_rle_trans((n1 as int, dd as int), old_u, u);
                            }
                        }
                    }
                    un = n1;
                    ud = dd;
                    proof {
                        ui = a + 1;
                    }
                }
                proof {
                    assert(-0x1_0000_0000_0000_0000_0000_0000 <= un * ld <= 0x1_0000_0000_0000_0000_0000_0000) by (nonlinear_arith)
                        requires
                            -0x8000_0000_0000_0000 <= un <= 0x8000_0000_0000_0000,
                            1 <= ld <= 0x400_0000,
                    ;
                    assert(-0x1_0000_0000_0000_0000_0000_0000 <= ln * ud <= 0x1_0000_0000_0000_0000_0000_0000) by (nonlinear_arith)
                        requires
                            -0x8000_0000_0000_0000 <= ln <= 0x8000_0000_0000_0000,
                            1 <= ud <= 0x400_0000,
                    ;
                }
                if un * ld <= ln * ud {
                    assert(!bound_lt(lower_bound(b, ray, tmin as int, li), upper_bound(b, ray, tmax as int, ui)));
                    return false;
                }
            }
            a = a + 1;
        }
        proof {
            assert forall|i: int, j: int| 0 <= i < 4 && 0 <= j < 4 implies #[trigger] bound_lt(
                lower_bound(b, ray, tmin as int, i),
                upper_bound(b, ray, tmax as int, j),
            ) by {
                if let Some(l) = lower_bound(b, ray, tmin as int, i) {
                    if let Some(u) = upper_bound(b, ray, tmax as int, j) {
                        lemma_rle_rlt(l, (ln as int, ld as int), (un as int, ud as int));
                        lemma_rlt_rle(l, (un as int, ud as int), u);
                    }
                }
            }
        }
        true
    }
}

/// The smallest box that holds both boxes.
pub fn surrounding_box(box0: &Aabb, box1: &Aabb) -> (r: Aabb)
    ensures
        r == union_box(*box0, *box1),
{
    let small = Vec3 {
        x: if box0.min.x <= box1.min.x { box0.min.x } else { box1.min.x },
        y: if box0.min.y <= box1.min.y { box0.min.y } else { box1.min.y },
        z: if box0.min.z <= box1.min.z { box0.min.z } else { box1.min.z },
    };
    let big = Vec3 {
        x: if box0.max.x >= box1.max.x { box0.max.x } else { box1.max.x },
        y: if box0.max.y >= box1.max.y { box0.max.y } else { box1.max.y },
        z: if box0.max.z >= box1.max.z { box0.max.z } else { box1.max.z },
    };
    Aabb::new(&small, &big)
}

} // verus!
