//! A parametric ray `origin + t * direction`, with the time at which it was cast.
use vstd::prelude::*;
use crate::fixed::{fmul, saturate, div_floor, LIM, ONE};
use crate::vec::{mk, Vec3};

verus! {

#[derive(Clone, Copy, Debug, PartialEq, Eq, Structural)]
pub struct Ray {
    pub a: Vec3,
    pub b: Vec3,
    pub time: i64,
}

/// The point at parameter `t` (a fixed-point value) along `r`.
pub open spec fn ray_at(r: Ray, t: int) -> Vec3 {
    mk(
        r.a.x + fmul(t, r.b.x as int),
        r.a.y + fmul(t, r.b.y as int),
        r.a.z + fmul(t, r.b.z as int),
    )
}

impl Ray {
    /// Origin and direction are valid vectors and the time lies in `[-LIM, LIM]`.
    pub open spec fn wf(&self) -> bool {
        self.a.wf() && self.b.wf() && -LIM <= self.time <= LIM
    }

    /// A ray cast at time zero.
    pub fn new(a: &Vec3, b: &Vec3) -> (r: Ray)
        ensures
            r == (Ray { a: *a, b: *b, time: 0 }),
    {
        Ray { a: *a, b: *b, time: 0 }
    }

    pub fn with_time(a: &Vec3, b: &Vec3, time: i64) -> (r: Ray)
        ensures
            r == (Ray { a: *a, b: *b, time }),
    {
        Ray { a: *a, b: *b, time }
    }

    pub fn origin(&self) -> (r: &Vec3)
        ensures
            *r == self.a,
    {
        &self.a
    }

    pub fn direction(&self) -> (r: &Vec3)
        ensures
            *r == self.b,
    {
        &self.b
    }

    pub fn time(&self) -> (r: i64)
        ensures
            r == self.time,
    {
        self.time
    }

    /// `origin + t * direction`, saturated.
    pub fn point_at_parameter(&self, t: i64) -> (r: Vec3)
        requires
            self.wf(),
        ensures
            r == ray_at(*self, t as int),
            r.wf(),
    {
        proof {
            assert forall|p: int, q: int|
                -0x400_0000 <= p <= 0x400_0000 && i64::MIN <= q <= i64::MAX implies
                -0x1_0000_0000_0000_0000_0000_0000 <= #[trigger] (q * p)
                <= 0x1_0000_0000_0000_0000_0000_0000 by {
                assert(-0x1_0000_0000_0000_0000_0000_0000 <= q * p <= 0x1_0000_0000_0000_0000_0000_0000)
                    by (nonlinear_arith)
                    requires
                        -0x400_0000 <= p <= 0x400_0000,
                        -0x8000_0000_0000_0000 <= q <= 0x7fff_ffff_ffff_ffff,
                ;
            }
        }
        let dx = div_floor(t as i128 * self.b.x as i128, ONE as i128);
        let dy = div_floor(t as i128 * self.b.y as i128, ONE as i128);
        let dz = div_floor(t as i128 * self.b.z as i128, ONE as i128);
        Vec3 {
            x: saturate(self.a.x as i128 + dx),
            y: saturate(self.a.y as i128 + dy),
            z: saturate(self.a.z as i128 + dz),
        }
    }
}

} // verus!
