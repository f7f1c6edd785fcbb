//! A Monte Carlo path tracer over fixed-point geometry.
//!
//! Lengths, ray parameters and colour channels are fixed-point integers (see
//! [`fixed`]); vector components saturate at a bound of 1024 units, so that no
//! arithmetic overflows. Surfaces form one closed sum type with a bounding-volume
//! hierarchy as one of its cases; materials are shared by index into the scene's
//! material list. Randomness is drawn through [`rng`], and each function that
//! draws states what holds for every value drawn.
pub mod fixed;
pub mod vec;
pub mod ray;
pub mod render;
pub mod rng;
pub mod texture;
pub mod trig;
pub mod aabb;
pub mod hitable;
pub mod material;
pub mod perlin;
pub mod bvh;
pub mod camera;
