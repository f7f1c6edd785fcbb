//! Perlin noise over a lattice of random unit gradients, and turbulence.
use vstd::prelude::*;
use crate::fixed::{add_fx, div_floor, mul_fx, ssat, ONE};
use crate::material::smul;
use crate::rng::random_below;
use crate::vec::{dot, unit_vector, vdot, vscale, vunit, Vec3};

verus! {

/// The gradient table and the three permutations of the lattice.
pub struct Perlin {
    pub ranvec: Vec<Vec3>,
    pub perm_x: Vec<usize>,
    pub perm_y: Vec<usize>,
    pub perm_z: Vec<usize>,
}

/// `s` holds each of `0..n` and nothing else.
pub open spec fn is_perm(s: Seq<usize>, n: int) -> bool {
    &&& s.len() == n
    &&& forall|i: int| 0 <= i < s.len() ==> #[trigger] s[i] < n
    &&& forall|k: usize| k < n ==> s.contains(k)
}

/// The gradient at lattice point `(i, j, k)`.
pub open spec fn lattice(pn: Perlin, i: int, j: int, k: int) -> Vec3 {
    pn.ranvec@[(pn.perm_x@[i % 256] ^ pn.perm_y@[j % 256] ^ pn.perm_z@[k % 256]) as int]
}

/// The smoothstep `t^2 (3 - 2t)`.
pub open spec fn hermite(t: int) -> int {
    smul(smul(t, t), ssat(3 * ONE - 2 * t))
}

pub open spec fn side(d: int, h: int) -> int {
    if d == 1 { h } else { ssat(ONE - h) }
}

/// The contribution of corner `(di, dj, dk)` of the cell to the noise.
pub open spec fn corner(pn: Perlin, p: Vec3, di: int, dj: int, dk: int) -> int {
    let i = (p.x as int) / (ONE as int);
    let j = (p.y as int) / (ONE as int);
    let k = (p.z as int) / (ONE as int);
    let u = (p.x as int) % (ONE as int);
    let v = (p.y as int) % (ONE as int);
    let w = (p.z as int) % (ONE as int);
    let g = lattice(pn, i + di, j + dj, k + dk);
    let wv = Vec3 { x: (u - di * ONE) as i64, y: (v - dj * ONE) as i64, z: (w - dk * ONE) as i64 };
    smul(smul(smul(side(di, hermite(u)), side(dj, hermite(v))), side(dk, hermite(w))), vdot(g, wv))
}

/// The noise at `p`: the eight corners' contributions, summed.
pub open spec fn noise_spec(pn: Perlin, p: Vec3) -> int {
    ssat(ssat(ssat(ssat(ssat(ssat(ssat(
        corner(pn, p, 0, 0, 0) + corner(pn, p, 0, 0, 1)) + corner(pn, p, 0, 1, 0)) + corner(pn, p, 0, 1, 1))
        + corner(pn, p, 1, 0, 0)) + corner(pn, p, 1, 0, 1)) + corner(pn, p, 1, 1, 0)) + corner(pn, p, 1, 1, 1))
}

/// `n` octaves of noise from `p` on, each at twice the frequency and half the
/// weight of the one before, added to `accum`.
pub open spec fn turb_loop(pn: Perlin, p: Vec3, n: nat, accum: int, weight: int) -> int
    decreases n,
{
    if n == 0 {
        accum
    } else {
        turb_loop(pn, vscale(p, 2 * ONE), (n - 1) as nat, ssat(accum + smul(weight, noise_spec(pn, p))), weight / 2)
    }
}

/// Turbulence: the magnitude of the sum of `depth` octaves of noise.
pub open spec fn turb_spec(pn: Perlin, p: Vec3, depth: nat) -> int {
    let a = turb_loop(pn, p, depth, 0, ONE as int);
    if a < 0 { -a } else { a }
}

impl Perlin {
    pub open spec fn wf(&self) -> bool {
        &&& self.ranvec.len() == 256
        &&& forall|i: int| 0 <= i < 256 ==> (#[trigger] self.ranvec@[i]).wf()
        &&& forall|i: int| 0 <= i < 256 ==> unit_of_cube(#[trigger] self.ranvec@[i])
        &&& is_perm(self.perm_x@, 256)
        &&& is_perm(self.perm_y@, 256)
        &&& is_perm(self.perm_z@, 256)
    }

    /// Fresh random tables.
    pub fn new() -> (pn: Perlin)
        ensures
            pn.wf(),
    {
        Perlin { ranvec: generate(), perm_x: generate_perm(), perm_y: generate_perm(), perm_z: generate_perm() }
    }

    fn lattice_exec(&self, i: i64, j: i64, k: i64) -> (g: Vec3)
        requires
            self.wf(),
        ensures
            g == lattice(*self, i as int, j as int, k as int),
            g.wf(),
    {
        let a = self.perm_x[(i as i128 - 256 * div_floor(i as i128, 256)) as usize];
        let b = self.perm_y[(j as i128 - 256 * div_floor(j as i128, 256)) as usize];
        let c = self.perm_z[(k as i128 - 256 * div_floor(k as i128, 256)) as usize];
        proof {
            vstd::arithmetic::div_mod::lemma_fundamental_div_mod(i as int, 256);
            vstd::arithmetic::div_mod::lemma_fundamental_div_mod(j as int, 256);
            vstd::arithmetic::div_mod::lemma_fundamental_div_mod(k as int, 256);
            assert((a ^ b ^ c) < 256) by (bit_vector)
                requires a < 256usize, b < 256usize, c < 256usize;
        }
        self.ranvec[a ^ b ^ c]
    }
}

fn hermite_exec(t: i64) -> (h: i64)
    ensures
        h == hermite(t as int),
{
    mul_fx(mul_fx(t, t), crate::fixed::ssaturate(3 * ONE as i128 - 2 * t as i128))
}

fn side_exec(d: i64, h: i64) -> (r: i64)
    ensures
        r == side(d as int, h as int),
{
    if d == 1 { h } else { crate::fixed::ssaturate(ONE as i128 - h as i128) }
}

fn corner_exec(pn: &Perlin, p: &Vec3, di: i64, dj: i64, dk: i64) -> (c: i64)
    requires
        pn.wf(),
        p.wf(),
        0 <= di <= 1,
        0 <= dj <= 1,
        0 <= dk <= 1,
    ensures
        c == corner(*pn, *p, di as int, dj as int, dk as int),
{
    let i = div_floor(p.x as i128, ONE as i128);
    let j = div_floor(p.y as i128, ONE as i128);
    let k = div_floor(p.z as i128, ONE as i128);
    proof {
        vstd::arithmetic::div_mod::lemma_fundamental_div_mod(p.x as int, ONE as int);
        vstd::arithmetic::div_mod::lemma_fundamental_div_mod(p.y as int, ONE as int);
        vstd::arithmetic::div_mod::lemma_fundamental_div_mod(p.z as int, ONE as int);
        crate::fixed::lemma_div_bounded(p.x as int, ONE as int, 0x400_0000);
        crate::fixed::lemma_div_bounded(p.y as int, ONE as int, 0x400_0000);
        crate::fixed::lemma_div_bounded(p.z as int, ONE as int, 0x400_0000);
    }
    let u = (p.x as i128 - i * ONE as i128) as i64;
    let v = (p.y as i128 - j * ONE as i128) as i64;
    let w = (p.z as i128 - k * ONE as i128) as i64;
    let g = pn.lattice_exec((i + di as i128) as i64, (j + dj as i128) as i64, (k + dk as i128) as i64);
    let wv = Vec3 { x: u - di * ONE, y: v - dj * ONE, z: w - dk * ONE };
    let weight = mul_fx(mul_fx(side_exec(di, hermite_exec(u)), side_exec(dj, hermite_exec(v))), side_exec(dk, hermite_exec(w)));
    mul_fx(weight, dot(&g, &wv))
}

/// Perlin noise at `p`.
pub fn noise(pn: &Perlin, p: &Vec3) -> (r: i64)
    requires
        pn.wf(),
        p.wf(),
    ensures
        r == noise_spec(*pn, *p),
{
    let mut acc = corner_exec(pn, p, 0, 0, 0);
    acc = add_fx(acc, corner_exec(pn, p, 0, 0, 1));
    acc = add_fx(acc, corner_exec(pn, p, 0, 1, 0));
    acc = add_fx(acc, corner_exec(pn, p, 0, 1, 1));
    acc = add_fx(acc, corner_exec(pn, p, 1, 0, 0));
    acc = add_fx(acc, corner_exec(pn, p, 1, 0, 1));
    acc = add_fx(acc, corner_exec(pn, p, 1, 1, 0));
    acc = add_fx(acc, corner_exec(pn, p, 1, 1, 1));
    proof {
        assert(corner(*pn, *p, 0, 0, 0) == ssat(corner(*pn, *p, 0, 0, 0)));
    }
    acc
}

/// Turbulence at `p` over `depth` octaves.
pub fn turb(pn: &Perlin, p: &Vec3, depth: u32) -> (r: i64)
    requires
        pn.wf(),
        p.wf(),
    ensures
        r == turb_spec(*pn, *p, depth as nat),
{
    let mut accum: i64 = 0;
    let mut temp_p = *p;
    let mut weight: i64 = ONE;
    let mut n: u32 = depth;
    while n > 0
        invariant
            pn.wf(),
            temp_p.wf(),
            0 <= weight <= ONE,
            -crate::fixed::SMAX <= accum <= crate::fixed::SMAX,
            turb_loop(*pn, temp_p, n as nat, accum as int, weight as int) == turb_loop(*pn, *p, depth as nat, 0, ONE as int),
        decreases n,
    {
        accum = add_fx(accum, mul_fx(weight, noise(pn, &temp_p)));
        weight = weight / 2;
        temp_p = temp_p.scale(2 * ONE);
        n = n - 1;
    }
    if accum < 0 { -accum } else { accum }
}

/// `v` is a vector of `[-1, 1)^3` scaled to unit length.
pub open spec fn unit_of_cube(v: Vec3) -> bool {
    exists|d: Vec3| d.wf() && v == #[trigger] vunit(d) && -ONE <= d.x < ONE && -ONE <= d.y < ONE && -ONE <= d.z < ONE
}

/// Returns 256 random unit vectors: each is a vector of `[-1, 1)^3` scaled to
/// unit length.
pub fn generate() -> (p: Vec<Vec3>)
    ensures
        p.len() == 256,
        forall|i: int| 0 <= i < 256 ==> (#[trigger] p@[i]).wf(),
        forall|i: int| 0 <= i < 256 ==> unit_of_cube(#[trigger] p@[i]),
{
    let mut p: Vec<Vec3> = Vec::new();
    let mut i: usize = 0;
    while i < 256
        invariant
            p.len() == i,
            i <= 256,
            forall|k: int| 0 <= k < i ==> (#[trigger] p@[k]).wf(),
            forall|k: int| 0 <= k < i ==> unit_of_cube(#[trigger] p@[k]),
        decreases 256 - i,
    {
        let x = random_below(2 * ONE as u64) as i64 - ONE;
        let y = random_below(2 * ONE as u64) as i64 - ONE;
        let z = random_below(2 * ONE as u64) as i64 - ONE;
        let d = Vec3 { x, y, z };
        let ghost prev = p@;
        p.push(unit_vector(&d));
        proof {
            assert forall|k: int| 0 <= k < i + 1 implies unit_of_cube(#[trigger] p@[k]) by {
                if k < i {
                    assert(p@[k] == prev[k]);
                } else {
                    assert(p@[k] == vunit(d));
                }
            }
        }
        i = i + 1;
    }
    assert(i == 256);
    p
}

/// Shuffles the first `n` entries of `p` (Fisher-Yates): the result holds the
/// same entries, and those from `n` on stay where they were.
fn permute(p: &mut Vec<usize>, n: usize)
    requires
        n <= old(p).len(),
    ensures
        final(p).len() == old(p).len(),
        final(p)@.to_multiset() == old(p)@.to_multiset(),
        forall|k: int| n <= k < old(p).len() ==> #[trigger] final(p)@[k] == old(p)@[k],
{
    broadcast use vstd::multiset::group_multiset_axioms;
    let ghost orig = p@;
    let mut i: usize = n;
    while i > 1
        invariant
            i <= n,
            n <= orig.len(),
            p.len() == orig.len(),
            p@.to_multiset() == orig.to_multiset(),
            forall|k: int| n <= k < orig.len() ==> #[trigger] p@[k] == orig[k],
        decreases i,
    {
        i = i - 1;
        let target = random_below(i as u64 + 1) as usize;
        let ghost before = p@;
        let a = p[i];
        let b = p[target];
        p[i] = b;
        let ghost mid = p@;
        p[target] = a;
        proof {
            vstd::seq_lib::to_multiset_update(before, i as int, b);
            vstd::seq_lib::to_multiset_update(mid, target as int, a);
            assert(mid == before.update(i as int, b));
            assert(p@ == mid.update(target as int, a));
            assert(mid[target as int] == b);
            vstd::seq_lib::to_multiset_contains(before, a);
            assert(before.contains(before[i as int]));
            assert(p@.to_multiset() =~= before.to_multiset());
        }
    }
}

/// A random permutation of `0..256`.
pub fn generate_perm() -> (p: Vec<usize>)
    ensures
        is_perm(p@, 256),
{
    let mut p: Vec<usize> = Vec::new();
    let mut i: usize = 0;
    while i < 256
        invariant
            p.len() == i,
            i <= 256,
            forall|k: int| 0 <= k < i ==> #[trigger] p@[k] == k,
        decreases 256 - i,
    {
        p.push(i);
        i = i + 1;
    }
    let ghost ident = p@;
    permute(&mut p, 256);
    proof {
        assert forall|k: usize| k < 256 implies p@.contains(k) by {
            assert(ident[k as int] == k);
            vstd::seq_lib::to_multiset_contains(ident, k);
            vstd::seq_lib::to_multiset_contains(p@, k);
        }
        assert forall|m: int| 0 <= m < p@.len() implies #[trigger] p@[m] < 256 by {
            assert(p@.contains(p@[m]));
            vstd::seq_lib::to_multiset_contains(p@, p@[m]);
            vstd::seq_lib::to_multiset_contains(ident, p@[m]);
            let k = choose|k: int| 0 <= k < ident.len() && ident[k] == p@[m];
        }
    }
    p
}

} // verus!
