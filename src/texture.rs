//! Textures: colours as functions of texture coordinates and position.
use vstd::prelude::*;
use crate::fixed::{add_fx, div_floor, fdiv, fmul, mul_fx, ssat, LIM, ONE};
use crate::material::smul;
use crate::perlin::{turb, turb_spec, Perlin};
use crate::trig::{lemma_sin_bounded, sin_fx, sin_spec};
use crate::vec::vscale;
use crate::hitable::sphere::PI;
use crate::vec::Vec3;

verus! {

/// A colour that depends on texture coordinates `(u, v)` and the point hit.
pub enum Texture {
    Constant(ConstantTexture),
    Checker(CheckerTexture),
    Image(ImageTexture),
    Noise(NoiseTexture),
}

/// A marble-like pattern: a sine of the height, perturbed by turbulence.
pub struct NoiseTexture {
    pub scale: i64,
    pub perlin: Perlin,
}

/// `0.5 (1 + sin(scale z + 10 turb(scale p)))`, grey.
pub open spec fn noise_value(t: NoiseTexture, p: Vec3) -> Vec3 {
    let s = sin_spec(ssat(smul(t.scale as int, p.z as int) + ssat(10 * turb_spec(t.perlin, vscale(p, t.scale as int), 7))));
    let g = ((ONE + s) / 2) as i64;
    Vec3 { x: g, y: g, z: g }
}

pub struct ConstantTexture {
    pub color: Vec3,
}

/// Two textures alternating in a 3D checker pattern.
pub struct CheckerTexture {
    pub odd: Box<Texture>,
    pub even: Box<Texture>,
}

/// An RGB image, row by row, three bytes per pixel.
pub struct ImageTexture {
    pub nx: u32,
    pub ny: u32,
    pub data: Vec<u8>,
}

/// The sign (-1, 0 or 1) of `sin(a)` for the fixed-point angle `a`.
pub open spec fn sine_sign(a: int) -> int {
    if a % (PI as int) == 0 {
        0
    } else if (a / (PI as int)) % 2 == 0 {
        1
    } else {
        -1
    }
}

/// The odd cells of the checker pattern: `sin(10x) sin(10y) sin(10z) < 0`.
pub open spec fn checker_odd(p: Vec3) -> bool {
    sine_sign(10 * p.x) * sine_sign(10 * p.y) * sine_sign(10 * p.z) < 0
}

pub open spec fn clamp_index(v: int, n: int) -> int {
    if v < 0 {
        0
    } else if v > n - 1 {
        n - 1
    } else {
        v
    }
}

/// A byte as a colour channel in `[0, 1]`.
pub open spec fn channel(b: u8) -> i64 {
    fdiv(b * ONE, 255) as i64
}

/// The pixel at `(u * nx, v * ny)`, each held to the image.
pub open spec fn image_value(t: ImageTexture, u: int, v: int) -> Vec3 {
    let i = clamp_index(fmul(u, t.nx as int), t.nx as int);
    let j = clamp_index(fmul(v, t.ny as int), t.ny as int);
    let k = 3 * (i + t.nx * j);
    Vec3 { x: channel(t.data@[k]), y: channel(t.data@[k + 1]), z: channel(t.data@[k + 2]) }
}

pub open spec fn texture_value(t: Texture, u: int, v: int, p: Vec3) -> Vec3
    decreases t,
{
    match t {
        Texture::Constant(c) => c.color,
        Texture::Checker(c) => if checker_odd(p) {
            texture_value(*c.odd, u, v, p)
        } else {
            texture_value(*c.even, u, v, p)
        },
        Texture::Image(img) => image_value(img, u, v),
        Texture::Noise(n) => noise_value(n, p),
    }
}

pub open spec fn texture_wf(t: Texture) -> bool
    decreases t,
{
    match t {
        Texture::Constant(c) => c.color.wf(),
        Texture::Checker(c) => texture_wf(*c.odd) && texture_wf(*c.even),
        Texture::Image(img) => img.wf(),
        Texture::Noise(n) => n.perlin.wf(),
    }
}

/// Each channel of `c` lies between zero and that channel of `e`.
pub open spec fn vec_within(c: Vec3, e: Vec3) -> bool {
    0 <= c.x <= e.x && 0 <= c.y <= e.y && 0 <= c.z <= e.z
}

/// Every value of the texture lies within `e`, channel by channel.
pub open spec fn texture_bounded(t: Texture, m: Vec3) -> bool
    decreases t,
{
    match t {
        Texture::Constant(c) => vec_within(c.color, m),
        Texture::Checker(c) => texture_bounded(*c.odd, m) && texture_bounded(*c.even, m),
        Texture::Image(img) => ONE <= m.x && ONE <= m.y && ONE <= m.z,
        Texture::Noise(_) => ONE <= m.x && ONE <= m.y && ONE <= m.z,
    }
}

/// A valid texture gives valid colours; a texture bounded by `m` gives colours
/// within `m`.
pub proof fn lemma_texture_value(t: Texture, u: int, v: int, p: Vec3, m: Vec3)
    ensures
        texture_wf(t) ==> texture_value(t, u, v, p).wf(),
        texture_wf(t) && texture_bounded(t, m) ==> vec_within(texture_value(t, u, v, p), m),
    decreases t,
{
    match t {
        Texture::Checker(c) => {
            lemma_texture_value(*c.odd, u, v, p, m);
            lemma_texture_value(*c.even, u, v, p, m);
        },
        Texture::Image(img) => {
            let i = clamp_index(fmul(u, img.nx as int), img.nx as int);
            let j = clamp_index(fmul(v, img.ny as int), img.ny as int);
            let k = 3 * (i + img.nx * j);
            lemma_channel_bounds(img.data@[k]);
            lemma_channel_bounds(img.data@[k + 1]);
            lemma_channel_bounds(img.data@[k + 2]);
        },
        Texture::Noise(n) => {
            lemma_sin_bounded(ssat(smul(n.scale as int, p.z as int) + ssat(10 * turb_spec(n.perlin, vscale(p, n.scale as int), 7))));
        },
        _ => {},
    }
}

fn sine_sign_exec(a: i64) -> (s: i64)
    requires
        -16 * LIM <= a <= 16 * LIM,
    ensures
        s == sine_sign(a as int),
        -1 <= s <= 1,
{
    let k = div_floor(a as i128, PI as i128);
    let rem = a as i128 - k * PI as i128;
    proof {
        vstd::arithmetic::div_mod::lemma_fundamental_div_mod(a as int, PI as int);
        crate::fixed::lemma_div_bounded(a as int, PI as int, 16 * LIM);
    }
    if rem == 0 {
        0
    } else {
        let half = div_floor(k, 2);
        proof {
            vstd::arithmetic::div_mod::lemma_fundamental_div_mod(k as int, 2);
        }
        if k - 2 * half == 0 {
            1
        } else {
            -1
        }
    }
}

proof fn lemma_channel_bounds(b: u8)
    ensures
        0 <= channel(b) <= ONE,
{
    assert(0 <= b * ONE <= 255 * ONE);
    vstd::arithmetic::div_mod::lemma_div_pos_is_pos(b * ONE, 255);
    vstd::arithmetic::div_mod::lemma_div_is_ordered(b * ONE, 255 * ONE, 255);
    vstd::arithmetic::div_mod::lemma_div_by_multiple(ONE as int, 255);
}

fn channel_exec(b: u8) -> (c: i64)
    ensures
        c == channel(b),
        0 <= c <= ONE,
{
    proof {
        lemma_channel_bounds(b);
    }
    div_floor(b as i128 * ONE as i128, 255) as i64
}

impl ImageTexture {
    /// At least one pixel, and three bytes for each.
    pub open spec fn wf(&self) -> bool {
        self.nx >= 1 && self.ny >= 1 && self.data.len() == 3 * self.nx * self.ny
    }

    /// The image of `nx` by `ny` pixels in `data`; where the sizes do not fit
    /// together (no pixel, or not three bytes for each), a single grey pixel.
    pub fn new(nx: u32, ny: u32, data: Vec<u8>) -> (t: ImageTexture)
        ensures
            t.wf(),
            (nx >= 1 && ny >= 1 && data.len() == 3 * nx * ny) ==> (t.nx == nx && t.ny == ny && t.data@ == data@),
            !(nx >= 1 && ny >= 1 && data.len() == 3 * nx * ny) ==> (t.nx == 1 && t.ny == 1 && t.data@
                == seq![128u8, 128u8, 128u8]),
    {
        assert(3 * nx * ny <= 3 * 0xffff_ffff * 0xffff_ffff) by (nonlinear_arith)
            requires nx <= 0xffff_ffff, ny <= 0xffff_ffff, nx >= 0, ny >= 0;
        if nx >= 1 && ny >= 1 && (data.len() as u128) == 3 * (nx as u128) * (ny as u128) {
            ImageTexture { nx, ny, data }
        } else {
            let grey: Vec<u8> = vec![128u8, 128u8, 128u8];
            assert(grey@ =~= seq![128u8, 128u8, 128u8]);
            ImageTexture { nx: 1, ny: 1, data: grey }
        }
    }

    /// The colour at texture coordinates `(u, v)`.
    pub fn value(&self, u: i64, v: i64) -> (c: Vec3)
        requires
            self.wf(),
        ensures
            c == image_value(*self, u as int, v as int),
            c.wf(),
    {
        proof {
            crate::fixed::lemma_mul_bounded(u as int, self.nx as int, 0x8000_0000_0000_0000, 0x1_0000_0000);
            crate::fixed::lemma_mul_bounded(v as int, self.ny as int, 0x8000_0000_0000_0000, 0x1_0000_0000);
        }
        let fi = div_floor(u as i128 * self.nx as i128, ONE as i128);
        let fj = div_floor(v as i128 * self.ny as i128, ONE as i128);
        let i: u128 = if fi < 0 { 0 } else if fi > self.nx as i128 - 1 { (self.nx - 1) as u128 } else { fi as u128 };
        let j: u128 = if fj < 0 { 0 } else if fj > self.ny as i128 - 1 { (self.ny - 1) as u128 } else { fj as u128 };
        assert(i + self.nx * j <= self.nx * self.ny - 1) by (nonlinear_arith)
            requires
                i <= self.nx - 1,
                j <= self.ny - 1,
                self.nx >= 1,
        ;
        assert(3 * (i + self.nx * j) + 2 < self.data.len()) by (nonlinear_arith)
            requires
                i + self.nx * j <= self.nx * self.ny - 1,
                self.data.len() == 3 * self.nx * self.ny,
        ;
        let k = (3 * (i + self.nx as u128 * j)) as usize;
        let r = channel_exec(self.data[k]);
        let g = channel_exec(self.data[k + 1]);
        let b = channel_exec(self.data[k + 2]);
        Vec3 { x: r, y: g, z: b }
    }
}

impl NoiseTexture {
    /// A noise texture at frequency `scale`, over fresh random tables.
    pub fn new(scale: i64) -> (t: NoiseTexture)
        ensures
            t.scale == scale,
            t.perlin.wf(),
    {
        NoiseTexture { scale, perlin: Perlin::new() }
    }

    pub fn value(&self, p: &Vec3) -> (c: Vec3)
        requires
            self.perlin.wf(),
            p.wf(),
        ensures
            c == noise_value(*self, *p),
            c.wf(),
    {
        let tp = turb(&self.perlin, &p.scale(self.scale), 7);
        let arg = add_fx(mul_fx(self.scale, p.z), crate::fixed::ssaturate(10 * tp as i128));
        let s = sin_fx(arg);
        let g = (ONE + s) / 2;
        Vec3 { x: g, y: g, z: g }
    }
}

impl ConstantTexture {
    pub fn new(c: Vec3) -> (t: ConstantTexture)
        ensures
            t.color == c,
    {
        ConstantTexture { color: c }
    }
}

impl CheckerTexture {
    pub fn new(t0: Box<Texture>, t1: Box<Texture>) -> (t: CheckerTexture)
        ensures
            t.odd == t0,
            t.even == t1,
    {
        CheckerTexture { odd: t0, even: t1 }
    }
}

impl Texture {
    /// The colour at texture coordinates `(u, v)` and point `p`.
    pub fn value(&self, u: i64, v: i64, p: &Vec3) -> (c: Vec3)
        requires
            texture_wf(*self),
            p.wf(),
        ensures
            c == texture_value(*self, u as int, v as int, *p),
            c.wf(),
        decreases *self,
    {
        match self {
            Texture::Constant(c) => c.color,
            Texture::Checker(c) => {
                let sx = sine_sign_exec(10 * p.x);
                let sy = sine_sign_exec(10 * p.y);
                let sz = sine_sign_exec(10 * p.z);
                assert(-1 <= sx * sy <= 1 && -1 <= sx * sy * sz <= 1) by (nonlinear_arith)
                    requires -1 <= sx <= 1, -1 <= sy <= 1, -1 <= sz <= 1;
                if sx * sy * sz < 0 {
                    c.odd.value(u, v, p)
                } else {
                    c.even.value(u, v, p)
                }
            },
            Texture::Image(img) => img.value(u, v),
            Texture::Noise(n) => n.value(p),
        }
    }
}

} // verus!
